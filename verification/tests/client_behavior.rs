use bytes::Bytes;
use speedy_http::HandleAllocator;
use speedy_http::client::FramingEvent;
use speedy_http::client::HttpClient;
use speedy_http::client::PollError;
use speedy_http::client::PollOutcome;
use speedy_http::msg::DeclaredLength;
use speedy_http::msg::Header;
use speedy_http::msg::HttpVersion;
use speedy_http::msg::Request;
use speedy_http::msg::ResponseHead;

fn request_to(authority: &str) -> Request {
    Request {
        method: String::from("GET"),
        uri: format!("http://{}/", authority),
        authority: Some(String::from(authority)),
        version: HttpVersion::Http11,
        headers: Vec::new(),
        body: Bytes::new(),
    }
}

fn head(status: u16, length: DeclaredLength) -> FramingEvent {
    FramingEvent::Head(
        ResponseHead {
            version: HttpVersion::Http11,
            status,
            headers: Vec::new(),
        },
        length,
    )
}

#[test]
fn single_request_single_client() {
    let mut alloc = HandleAllocator::new();
    let mut client: HttpClient<u64> = HttpClient::new();
    let (h1, _wire) = client
        .request(request_to("example.com:80"), 7, true, &mut alloc)
        .unwrap();
    assert_eq!(client.queue_len(), 1);
    match client.poll_response(head(200, DeclaredLength::Length(5))) {
        PollOutcome::Pending => {}
        _ => panic!("head must not complete a response"),
    }
    match client.poll_response(FramingEvent::BodyChunk(Bytes::from_static(b"hello"))) {
        PollOutcome::Delivered(h, resp) => {
            assert_eq!(h.id(), h1.id());
            assert_eq!(resp.status, 200);
            assert_eq!(resp.body.as_ref(), b"hello");
            assert_eq!(h.into_data(), 7);
        }
        _ => panic!("expected the completed response"),
    }
    assert_eq!(client.queue_len(), 0);
}

#[test]
fn pipelined_three_requests_in_order() {
    let mut alloc = HandleAllocator::new();
    let mut client: HttpClient<u64> = HttpClient::new();
    let mut ids = Vec::new();
    for k in 0..3u64 {
        let (h, _wire) = client
            .request(request_to("example.com:80"), k, true, &mut alloc)
            .unwrap();
        ids.push(h.id());
    }
    assert_eq!(client.queue_len(), 3);
    let bodies: [&[u8]; 3] = [b"a", b"bb", b"ccc"];
    for k in 0..3usize {
        match client.poll_response(head(200, DeclaredLength::Length(bodies[k].len() as u64))) {
            PollOutcome::Pending => {}
            _ => panic!("head must not complete a response"),
        }
        match client.poll_response(FramingEvent::BodyChunk(Bytes::copy_from_slice(bodies[k]))) {
            PollOutcome::Delivered(h, resp) => {
                assert_eq!(h.id(), ids[k]);
                assert_eq!(resp.body.as_ref(), bodies[k]);
            }
            _ => panic!("expected a completed response"),
        }
    }
    assert_eq!(client.queue_len(), 0);
}

#[test]
fn body_accumulates_across_chunks() {
    let mut alloc = HandleAllocator::new();
    let mut client: HttpClient<()> = HttpClient::new();
    client
        .request(request_to("example.com:80"), (), true, &mut alloc)
        .unwrap();
    assert!(matches!(
        client.poll_response(head(200, DeclaredLength::Length(5))),
        PollOutcome::Pending
    ));
    assert!(matches!(
        client.poll_response(FramingEvent::BodyChunk(Bytes::from_static(b"he"))),
        PollOutcome::Pending
    ));
    match client.poll_response(FramingEvent::BodyChunk(Bytes::from_static(b"llo"))) {
        PollOutcome::Delivered(_h, resp) => assert_eq!(resp.body.as_ref(), b"hello"),
        _ => panic!("expected the completed response"),
    }
}

#[test]
fn close_delimited_body_ends_on_body_end() {
    let mut alloc = HandleAllocator::new();
    let mut client: HttpClient<()> = HttpClient::new();
    client
        .request(request_to("example.com:80"), (), true, &mut alloc)
        .unwrap();
    assert!(matches!(
        client.poll_response(head(200, DeclaredLength::Unbounded)),
        PollOutcome::Pending
    ));
    assert!(matches!(
        client.poll_response(FramingEvent::BodyChunk(Bytes::from_static(b"ab"))),
        PollOutcome::Pending
    ));
    match client.poll_response(FramingEvent::BodyEnd) {
        PollOutcome::Delivered(_h, resp) => assert_eq!(resp.body.as_ref(), b"ab"),
        _ => panic!("expected the completed response"),
    }
}

#[test]
fn submission_refused_without_write_capacity() {
    let mut alloc = HandleAllocator::new();
    let mut client: HttpClient<()> = HttpClient::new();
    let req = request_to("example.com:80");
    match client.request(req, (), false, &mut alloc) {
        Err(back) => assert_eq!(back.authority.as_deref(), Some("example.com:80")),
        Ok(_) => panic!("a client that cannot write must refuse"),
    }
    assert_eq!(client.queue_len(), 0);
}

#[test]
fn host_header_rewritten_from_authority() {
    let mut alloc = HandleAllocator::new();
    let mut client: HttpClient<()> = HttpClient::new();
    let mut req = request_to("example.com:80");
    req.headers.push(Header {
        name: String::from("host"),
        value: String::from("stale.example"),
    });
    req.headers.push(Header {
        name: String::from("accept"),
        value: String::from("*/*"),
    });
    let (_h, wire) = client.request(req, (), true, &mut alloc).unwrap();
    assert_eq!(wire.headers.len(), 2);
    assert_eq!(wire.headers[0].name, "accept");
    assert_eq!(wire.headers[0].value, "*/*");
    assert_eq!(wire.headers[1].name, "host");
    assert_eq!(wire.headers[1].value, "example.com:80");
}

#[test]
fn idle_poll_is_a_no_op() {
    let mut alloc = HandleAllocator::new();
    let mut client: HttpClient<()> = HttpClient::new();
    client
        .request(request_to("example.com:80"), (), true, &mut alloc)
        .unwrap();
    assert!(matches!(
        client.poll_response(FramingEvent::NoProgress),
        PollOutcome::Pending
    ));
    assert_eq!(client.queue_len(), 1);
}

#[test]
fn head_without_pending_entry_fails() {
    let mut client: HttpClient<()> = HttpClient::new();
    match client.poll_response(head(200, DeclaredLength::Length(1))) {
        PollOutcome::Failed(e) => assert_eq!(e, PollError::NoPendingEntry),
        _ => panic!("a head with an empty queue is an error"),
    }
}

#[test]
fn chunk_before_head_fails() {
    let mut alloc = HandleAllocator::new();
    let mut client: HttpClient<()> = HttpClient::new();
    client
        .request(request_to("example.com:80"), (), true, &mut alloc)
        .unwrap();
    match client.poll_response(FramingEvent::BodyChunk(Bytes::from_static(b"x"))) {
        PollOutcome::Failed(e) => assert_eq!(e, PollError::NoDeclaredLength),
        _ => panic!("a chunk before any head is an error"),
    }
}

#[test]
fn flush_error_is_a_channel_error() {
    let mut client: HttpClient<()> = HttpClient::new();
    match client.poll_response(FramingEvent::FlushError) {
        PollOutcome::Failed(e) => assert_eq!(e, PollError::Channel),
        _ => panic!("a flush error surfaces as a channel error"),
    }
}

#[test]
fn clean_eof_closes_client() {
    let mut client: HttpClient<()> = HttpClient::new();
    assert!(matches!(
        client.poll_response(FramingEvent::HeadEof),
        PollOutcome::Closed
    ));
}

#[test]
fn handles_unique_across_clients() {
    let mut alloc = HandleAllocator::new();
    let mut c1: HttpClient<()> = HttpClient::new();
    let mut c2: HttpClient<()> = HttpClient::new();
    let mut seen = Vec::new();
    for _ in 0..4 {
        let (h, _) = c1
            .request(request_to("example.com:80"), (), true, &mut alloc)
            .unwrap();
        seen.push(h.id());
        let (h, _) = c2
            .request(request_to("example.com:80"), (), true, &mut alloc)
            .unwrap();
        seen.push(h.id());
    }
    for a in 0..seen.len() {
        for b in 0..seen.len() {
            if a != b {
                assert_ne!(seen[a], seen[b]);
            }
        }
    }
}
