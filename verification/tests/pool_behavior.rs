use bytes::Bytes;
use speedy_http::client::FramingEvent;
use speedy_http::msg::DeclaredLength;
use speedy_http::msg::HttpVersion;
use speedy_http::msg::Request;
use speedy_http::msg::ResponseHead;
use speedy_http::pool::HttpClientPool;
use speedy_http::pool::HttpClientPoolConfig;
use speedy_http::pool::PoolPollOutcome;

fn request_to(authority: &str) -> Request {
    Request {
        method: String::from("GET"),
        uri: format!("http://{}/", authority),
        authority: Some(String::from(authority)),
        version: HttpVersion::Http11,
        headers: Vec::new(),
        body: Bytes::new(),
    }
}

fn head(status: u16, length: DeclaredLength) -> FramingEvent {
    FramingEvent::Head(
        ResponseHead {
            version: HttpVersion::Http11,
            status,
            headers: Vec::new(),
        },
        length,
    )
}

fn pool_with_clients(n: usize, config: HttpClientPoolConfig) -> HttpClientPool<u64> {
    let mut pool: HttpClientPool<u64> = HttpClientPool::new(config);
    let started = pool.poll_maintain_connection();
    assert_eq!(started, n);
    pool.poll_connecting(n, 0);
    pool
}

#[test]
fn maintenance_reaches_floor() {
    let mut pool: HttpClientPool<u64> = HttpClientPool::new(HttpClientPoolConfig {
        maintain_size: Some(3),
        max_conv_per_channel: 4,
    });
    let started = pool.poll_maintain_connection();
    assert_eq!(started, 3);
    // The floor is met: nothing more is started.
    assert_eq!(pool.poll_maintain_connection(), 0);
    pool.poll_connecting(2, 1);
    // One attempt failed: maintenance starts one more.
    assert_eq!(pool.poll_maintain_connection(), 1);
    pool.record_status(10);
    let stats = pool.get_status_records();
    assert_eq!(stats.current_stat.connection_living_count, 2);
    assert_eq!(stats.current_stat.connection_connecting_count, 1);
    assert_eq!(stats.current_stat.connection_new_count, 4);
}

#[test]
fn no_maintenance_without_floor() {
    let mut pool: HttpClientPool<u64> = HttpClientPool::new(HttpClientPoolConfig {
        maintain_size: None,
        max_conv_per_channel: 4,
    });
    assert_eq!(pool.poll_maintain_connection(), 0);
}

#[test]
fn requests_before_any_channel_are_pended() {
    // Three submissions before any channel connects, with a floor of two.
    let mut pool: HttpClientPool<u64> = HttpClientPool::new(HttpClientPoolConfig {
        maintain_size: Some(2),
        max_conv_per_channel: 1,
    });
    let none: Vec<bool> = Vec::new();
    let r1 = pool.request(request_to("example.com:80"), 1, &none, 100);
    assert!(r1.dispatch.is_none());
    assert!(r1.connect);
    let r2 = pool.request(request_to("example.com:80"), 2, &none, 101);
    assert!(r2.dispatch.is_none());
    assert!(r2.connect);
    let r3 = pool.request(request_to("example.com:80"), 3, &none, 102);
    assert!(r3.dispatch.is_none());
    // The connection bound (the floor) is reached: no third attempt.
    assert!(!r3.connect);
    assert_ne!(r1.handle.id(), r2.handle.id());
    assert_ne!(r2.handle.id(), r3.handle.id());
    // The history holds a snapshot where exactly one request was pending.
    let saw_one_pending = pool
        .get_status_records()
        .history_stats
        .iter()
        .any(|e| e.stat.request_pending_count == 1);
    assert!(saw_one_pending);
    // Maintenance is already satisfied by the two attempts in progress.
    assert_eq!(pool.poll_maintain_connection(), 0);
    pool.poll_connecting(2, 0);
    // One drain dispatches one request per channel — a channel that took a
    // head cannot take another until the driver has flushed and observed
    // it writable again — so the third request remains pending.
    let can_write = vec![true, true];
    let dispatches = pool.poll_send_request(&can_write);
    assert_eq!(dispatches.len(), 2);
    assert_eq!(dispatches[0].channel, 0);
    assert_eq!(dispatches[1].channel, 1);
    pool.record_status(200);
    assert_eq!(pool.get_status_records().current_stat.request_pending_count, 1);
    assert_eq!(pool.get_status_records().current_stat.request_sent_count, 3);
    // Once the channels report writable again, the third request goes out
    // through the overload fallback rather than waiting indefinitely.
    let dispatches = pool.poll_send_request(&can_write);
    assert_eq!(dispatches.len(), 1);
    assert_eq!(dispatches[0].channel, 0);
    pool.record_status(300);
    assert_eq!(pool.get_status_records().current_stat.request_pending_count, 0);
}

#[test]
fn drain_writes_each_channel_at_most_once() {
    let mut pool = pool_with_clients(
        1,
        HttpClientPoolConfig {
            maintain_size: Some(1),
            max_conv_per_channel: 4,
        },
    );
    // Pend two requests while the channel cannot take a head.
    let blocked = vec![false];
    assert!(pool.request(request_to("example.com:80"), 1, &blocked, 100).dispatch.is_none());
    assert!(pool.request(request_to("example.com:80"), 2, &blocked, 101).dispatch.is_none());
    // One drain writes the channel once; the second request keeps waiting.
    let can_write = vec![true];
    let dispatches = pool.poll_send_request(&can_write);
    assert_eq!(dispatches.len(), 1);
    assert_eq!(dispatches[0].channel, 0);
    pool.record_status(102);
    assert_eq!(pool.get_status_records().current_stat.request_pending_count, 1);
    // The next drain, with the channel writable again, sends it.
    let dispatches = pool.poll_send_request(&can_write);
    assert_eq!(dispatches.len(), 1);
    pool.record_status(103);
    assert_eq!(pool.get_status_records().current_stat.request_pending_count, 0);
}

#[test]
fn mid_stream_error_evicts_and_loses_later_requests() {
    let mut pool = pool_with_clients(
        1,
        HttpClientPoolConfig {
            maintain_size: Some(1),
            max_conv_per_channel: 10,
        },
    );
    let can_write = vec![true];
    let h1 = pool.request(request_to("example.com:80"), 1, &can_write, 100);
    let h2 = pool.request(request_to("example.com:80"), 2, &can_write, 101);
    let h3 = pool.request(request_to("example.com:80"), 3, &can_write, 102);
    assert!(h1.dispatch.is_some());
    assert!(h2.dispatch.is_some());
    assert!(h3.dispatch.is_some());
    // Response one completes cleanly.
    assert!(matches!(
        pool.poll_response(0, head(200, DeclaredLength::Length(1))),
        PoolPollOutcome::NoResponse
    ));
    match pool.poll_response(0, FramingEvent::BodyChunk(Bytes::from_static(b"x"))) {
        PoolPollOutcome::Response(h, resp) => {
            assert_eq!(h.id(), h1.handle.id());
            assert_eq!(resp.body.as_ref(), b"x");
        }
        _ => panic!("expected the first response"),
    }
    // The body read of response two fails: the client is evicted and the
    // handles of requests two and three are never delivered.
    assert!(matches!(
        pool.poll_response(0, head(200, DeclaredLength::Length(5))),
        PoolPollOutcome::NoResponse
    ));
    assert!(matches!(
        pool.poll_response(0, FramingEvent::BodyError),
        PoolPollOutcome::Evicted
    ));
    pool.record_status(200);
    let stats = pool.get_status_records();
    assert_eq!(stats.current_stat.response_ok_count, 1);
    assert_eq!(stats.current_stat.response_bad_count, 1);
    assert_eq!(stats.current_stat.connection_living_count, 0);
}

#[test]
fn clean_eof_removes_client_silently() {
    let mut pool = pool_with_clients(
        1,
        HttpClientPoolConfig {
            maintain_size: Some(1),
            max_conv_per_channel: 2,
        },
    );
    assert!(matches!(
        pool.poll_response(0, FramingEvent::HeadEof),
        PoolPollOutcome::Evicted
    ));
    pool.record_status(100);
    let stats = pool.get_status_records();
    assert_eq!(stats.current_stat.response_bad_count, 0);
    assert_eq!(stats.current_stat.connection_living_count, 0);
}

#[test]
fn overload_falls_back_to_least_loaded_channel() {
    let mut pool = pool_with_clients(
        1,
        HttpClientPoolConfig {
            maintain_size: Some(1),
            max_conv_per_channel: 2,
        },
    );
    let can_write = vec![true];
    let r1 = pool.request(request_to("example.com:80"), 1, &can_write, 100);
    let r2 = pool.request(request_to("example.com:80"), 2, &can_write, 101);
    // The single channel is at its soft cap; the third submission lands on
    // it anyway rather than pending indefinitely.
    let r3 = pool.request(request_to("example.com:80"), 3, &can_write, 102);
    assert_eq!(r1.dispatch.unwrap().channel, 0);
    assert_eq!(r2.dispatch.unwrap().channel, 0);
    assert_eq!(r3.dispatch.unwrap().channel, 0);
    pool.record_status(200);
    assert_eq!(pool.get_status_records().current_stat.request_pending_count, 0);
}

#[test]
fn soft_cap_respected_while_a_channel_is_under_it() {
    let mut pool = pool_with_clients(
        2,
        HttpClientPoolConfig {
            maintain_size: Some(2),
            max_conv_per_channel: 2,
        },
    );
    let can_write = vec![true, true];
    let mut channels = Vec::new();
    for k in 0..4u64 {
        let r = pool.request(request_to("example.com:80"), k, &can_write, 100 + k);
        channels.push(r.dispatch.unwrap().channel);
    }
    // Round-robin: both channels fill evenly and none exceeds the cap while
    // the other is below it.
    assert_eq!(channels, vec![0, 1, 0, 1]);
}

#[test]
fn refused_submission_is_requeued_not_lost() {
    let mut pool = pool_with_clients(
        1,
        HttpClientPoolConfig {
            maintain_size: Some(1),
            max_conv_per_channel: 2,
        },
    );
    // The only channel cannot take a head right now.
    let can_write = vec![false];
    let r = pool.request(request_to("example.com:80"), 1, &can_write, 100);
    assert!(r.dispatch.is_none());
    assert!(!r.connect);
    pool.record_status(101);
    assert_eq!(pool.get_status_records().current_stat.request_pending_count, 1);
    // Once the channel can write, the drain dispatches it.
    let can_write = vec![true];
    let dispatches = pool.poll_send_request(&can_write);
    assert_eq!(dispatches.len(), 1);
    assert_eq!(dispatches[0].channel, 0);
    pool.record_status(102);
    assert_eq!(pool.get_status_records().current_stat.request_pending_count, 0);
}

#[test]
fn closed_client_removed_without_error() {
    let mut pool = pool_with_clients(
        2,
        HttpClientPoolConfig {
            maintain_size: Some(2),
            max_conv_per_channel: 2,
        },
    );
    pool.remove_closed_client(0);
    pool.record_status(100);
    let stats = pool.get_status_records();
    assert_eq!(stats.current_stat.connection_living_count, 1);
    assert_eq!(stats.current_stat.response_bad_count, 0);
}

#[test]
fn idle_pool_poll_changes_nothing() {
    let mut pool = pool_with_clients(
        1,
        HttpClientPoolConfig {
            maintain_size: Some(1),
            max_conv_per_channel: 2,
        },
    );
    pool.record_status(100);
    let before = pool.get_status_records().current_stat;
    assert!(matches!(
        pool.poll_response(0, FramingEvent::NoProgress),
        PoolPollOutcome::NoResponse
    ));
    pool.record_status(101);
    let after = pool.get_status_records().current_stat;
    assert!(before == after);
    // An unchanged snapshot is not recorded twice.
    let n = pool.get_status_records().history_stats.len();
    pool.record_status(102);
    assert_eq!(pool.get_status_records().history_stats.len(), n);
}

#[test]
fn accounting_balances_without_evictions() {
    let mut pool = pool_with_clients(
        1,
        HttpClientPoolConfig {
            maintain_size: Some(1),
            max_conv_per_channel: 4,
        },
    );
    let can_write = vec![true];
    pool.request(request_to("example.com:80"), 1, &can_write, 100);
    pool.request(request_to("example.com:80"), 2, &can_write, 101);
    for _ in 0..2 {
        assert!(matches!(
            pool.poll_response(0, head(200, DeclaredLength::Length(1))),
            PoolPollOutcome::NoResponse
        ));
        assert!(matches!(
            pool.poll_response(0, FramingEvent::BodyChunk(Bytes::from_static(b"y"))),
            PoolPollOutcome::Response(_, _)
        ));
    }
    pool.record_status(200);
    let stats = pool.get_status_records();
    // Everything sent was answered: nothing in flight, nothing pending.
    assert_eq!(stats.current_stat.request_sent_count, 2);
    assert_eq!(stats.current_stat.response_ok_count, 2);
    assert_eq!(stats.current_stat.response_bad_count, 0);
    assert_eq!(stats.current_stat.request_pending_count, 0);
}

#[test]
fn request_channel_trace_records_dispatches() {
    let mut pool = pool_with_clients(
        2,
        HttpClientPoolConfig {
            maintain_size: Some(2),
            max_conv_per_channel: 2,
        },
    );
    let can_write = vec![true, true];
    pool.request(request_to("example.com:80"), 1, &can_write, 100);
    pool.request(request_to("example.com:80"), 2, &can_write, 101);
    assert_eq!(pool.get_status_records().request_on_channel, vec![0, 1]);
}
