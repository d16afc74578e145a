//! The client pool: a multiplexer over several pipelined clients.
//!
//! The pool decides admission, channel selection, pending-request queueing,
//! connection maintenance and eviction; the driving task owns the channels,
//! the engines and the factory, performs the writes and connection attempts
//! the pool asks for, and hands each engine observation back in.
//!
//! The ids a pool yields come from its own allocator, so they are unique
//! within the pool (and per process as far as one pool serves it).
//! Timestamps for the snapshot history are supplied by the driving task's
//! clock, in microseconds.

use vstd::prelude::*;

use crate::HandleAllocator;
use crate::RequestHandle;
use crate::client::EntryModel;
use crate::client::FramingEvent;
use crate::client::HttpClient;
use crate::client::PollOutcome;
use crate::client::StepKind;
use crate::client::fresh_entry;
use crate::client::spec_delivered_body;
use crate::client::spec_step_kind;
use crate::client::spec_step_queue;
use crate::msg::BodyProgress;
use crate::msg::Request;
use crate::msg::Response;
use crate::msg::host_rewritten;
use crate::stat::ConnectionStatistics;
use crate::stat::ConnectionStatisticsEntry;
use crate::stat::stats_zero;
use std::collections::VecDeque;

verus! {

/// The pool's policy: how many channels to keep alive eagerly (`None` means
/// connect only on demand), and the soft cap on requests in flight per
/// channel.
#[derive(Clone)]
pub struct HttpClientPoolConfig {
    pub maintain_size: Option<usize>,
    pub max_conv_per_channel: usize,
}

/// Counters, their snapshot history, and the channel index every accepted
/// request landed on, in acceptance order.
pub struct HttpClientPoolStats {
    pub current_stat: ConnectionStatistics,
    pub history_stats: Vec<ConnectionStatisticsEntry>,
    pub request_on_channel: Vec<usize>,
}

/// A write the driving task must perform: serialise `request` on the
/// engine of channel `channel`.
pub struct Dispatch {
    pub channel: usize,
    pub request: Request,
}

/// What one submission decided: the minted handle, the write to perform if
/// a channel took the request, and whether to start one connection attempt.
pub struct SubmitResult<T> {
    pub handle: RequestHandle<T>,
    pub dispatch: Option<Dispatch>,
    pub connect: bool,
}

/// The pool's answer to one framing event on one channel.
pub enum PoolPollOutcome<T> {
    /// A response completed on the polled channel.
    Response(RequestHandle<T>, Response),
    /// The polled client was removed; the driver drops its channel.
    Evicted,
    /// Nothing completed on the polled channel.
    NoResponse,
}

/// Total entries pending across all client queues.
pub open spec fn sum_lens<T>(m: Seq<Seq<EntryModel<T>>>) -> int
    decreases m.len(),
{
    if m.len() == 0 {
        0
    } else {
        m[0].len() + sum_lens(m.drop_first())
    }
}

proof fn lemma_sum_lens_nonneg<T>(m: Seq<Seq<EntryModel<T>>>)
    ensures
        sum_lens(m) >= 0,
    decreases m.len(),
{
    if m.len() > 0 {
        lemma_sum_lens_nonneg(m.drop_first());
    }
}

proof fn lemma_sum_lens_entry<T>(m: Seq<Seq<EntryModel<T>>>, i: int)
    requires
        0 <= i < m.len(),
    ensures
        sum_lens(m) >= m[i].len(),
    decreases m.len(),
{
    lemma_sum_lens_nonneg(m.drop_first());
    if i > 0 {
        lemma_sum_lens_entry(m.drop_first(), i - 1);
        lemma_sum_lens_nonneg(m);
    }
}

proof fn lemma_sum_lens_push<T>(m: Seq<Seq<EntryModel<T>>>, q: Seq<EntryModel<T>>)
    ensures
        sum_lens(m.push(q)) == sum_lens(m) + q.len(),
    decreases m.len(),
{
    if m.len() == 0 {
        assert(m.push(q).drop_first() =~= Seq::<Seq<EntryModel<T>>>::empty());
        assert(m.push(q)[0] == q);
        assert(sum_lens(m.push(q)) == q.len() + sum_lens(
            Seq::<Seq<EntryModel<T>>>::empty(),
        ));
    } else {
        assert(m.push(q)[0] == m[0]);
        assert(m.push(q).drop_first() =~= m.drop_first().push(q));
        lemma_sum_lens_push(m.drop_first(), q);
        assert(sum_lens(m.push(q)) == m[0].len() + sum_lens(m.drop_first().push(q)));
        assert(sum_lens(m) == m[0].len() + sum_lens(m.drop_first()));
    }
}

proof fn lemma_sum_lens_update<T>(m: Seq<Seq<EntryModel<T>>>, i: int, q: Seq<EntryModel<T>>)
    requires
        0 <= i < m.len(),
    ensures
        sum_lens(m.update(i, q)) == sum_lens(m) - m[i].len() + q.len(),
    decreases m.len(),
{
    if i == 0 {
        assert(m.update(0, q).drop_first() =~= m.drop_first());
        assert(m.update(0, q)[0] == q);
        assert(sum_lens(m.update(0, q)) == q.len() + sum_lens(m.drop_first()));
        assert(sum_lens(m) == m[0].len() + sum_lens(m.drop_first()));
    } else {
        assert(m.update(i, q)[0] == m[0]);
        assert(m.update(i, q).drop_first() =~= m.drop_first().update(i - 1, q));
        lemma_sum_lens_update(m.drop_first(), i - 1, q);
        assert(sum_lens(m.update(i, q)) == m[0].len() + sum_lens(
            m.drop_first().update(i - 1, q),
        ));
        assert(sum_lens(m) == m[0].len() + sum_lens(m.drop_first()));
    }
}

proof fn lemma_sum_lens_drop_last<T>(m: Seq<Seq<EntryModel<T>>>)
    requires
        m.len() > 0,
    ensures
        sum_lens(m) == sum_lens(m.drop_last()) + m.last().len(),
    decreases m.len(),
{
    if m.len() == 1 {
        assert(m.drop_last() =~= Seq::<Seq<EntryModel<T>>>::empty());
        assert(m[0] == m.last());
        assert(sum_lens(m) == m[0].len() + sum_lens(m.drop_first()));
        assert(m.drop_first() =~= Seq::<Seq<EntryModel<T>>>::empty());
    } else {
        assert(m.drop_last()[0] == m[0]);
        assert(m.drop_last().drop_first() =~= m.drop_first().drop_last());
        lemma_sum_lens_drop_last(m.drop_first());
        assert(sum_lens(m) == m[0].len() + sum_lens(m.drop_first()));
        assert(sum_lens(m.drop_last()) == m[0].len() + sum_lens(m.drop_first().drop_last()));
        assert(m.last() == m.drop_first().last());
    }
}

/// The model of `Vec::swap_remove`: the last element stands in for the
/// removed one.
pub open spec fn swap_removed<A>(s: Seq<A>, i: int) -> Seq<A> {
    s.update(i, s.last()).drop_last()
}

proof fn lemma_sum_lens_swap_remove<T>(m: Seq<Seq<EntryModel<T>>>, i: int)
    requires
        0 <= i < m.len(),
    ensures
        sum_lens(swap_removed(m, i)) == sum_lens(m) - m[i].len(),
{
    let u = m.update(i, m.last());
    lemma_sum_lens_update(m, i, m.last());
    lemma_sum_lens_drop_last(u);
    assert(u.drop_last() == swap_removed(m, i));
    if i < m.len() - 1 {
        assert(u.last() == m.last());
    } else {
        assert(u =~= m);
    }
}

/// Channel `i` can take a request without breaking the soft cap: its engine
/// can write a head and its queue is under the per-channel limit.
pub open spec fn qualifies<T>(
    m: Seq<Seq<EntryModel<T>>>,
    cw: Seq<bool>,
    cap: usize,
    i: int,
) -> bool {
    &&& 0 <= i < m.len()
    &&& cw[i]
    &&& m[i].len() < cap
}

/// `i` is the first qualifying channel at or after `start`.
pub open spec fn phase1_pick<T>(
    m: Seq<Seq<EntryModel<T>>>,
    cw: Seq<bool>,
    cap: usize,
    start: int,
    i: int,
) -> bool {
    &&& start <= i < m.len()
    &&& qualifies(m, cw, cap, i)
    &&& forall|k: int| start <= k < i ==> !qualifies(m, cw, cap, k)
}

/// `i` is the channel with the shortest queue, ties broken by lower index.
pub open spec fn fallback_pick<T>(m: Seq<Seq<EntryModel<T>>>, i: int) -> bool {
    &&& 0 <= i < m.len()
    &&& forall|k: int| 0 <= k < m.len() ==> m[i].len() <= (#[trigger] m[k]).len()
    &&& forall|k: int| 0 <= k < i ==> m[i].len() < (#[trigger] m[k]).len()
}

/// Where the round-robin scan begins: at the cursor, reset to the front
/// once it has run off the end.
pub open spec fn selection_start(len: int, cursor: int) -> int {
    if cursor >= len {
        0
    } else {
        cursor
    }
}

/// The channel a submission is routed to: the round-robin pick when some
/// channel from the cursor onwards qualifies, else the overload fallback
/// to the least loaded channel.
pub open spec fn selected_channel<T>(
    m: Seq<Seq<EntryModel<T>>>,
    cw: Seq<bool>,
    cap: usize,
    cursor: int,
    i: int,
) -> bool {
    let start = selection_start(m.len() as int, cursor);
    if exists|j: int| phase1_pick(m, cw, cap, start, j) {
        phase1_pick(m, cw, cap, start, i)
    } else {
        fallback_pick(m, i)
    }
}

/// Soft cap respect under non-overload: while some channel qualifies, the
/// selected channel's queue is under the cap.
pub proof fn lemma_soft_cap<T>(
    m: Seq<Seq<EntryModel<T>>>,
    cw: Seq<bool>,
    cap: usize,
    cursor: int,
    i: int,
    j: int,
)
    requires
        qualifies(m, cw, cap, j),
        selected_channel(m, cw, cap, cursor, i),
    ensures
        m[i].len() < cap,
{
    let start = selection_start(m.len() as int, cursor);
    if exists|k: int| phase1_pick(m, cw, cap, start, k) {
    } else {
        assert(m[i].len() <= m[j].len());
    }
}

/// Where the selection cursor stands after one pick of channel `ch`: past
/// the pick when the round-robin phase found it, else at the end of the
/// scan.
pub open spec fn cursor_after<T>(
    m: Seq<Seq<EntryModel<T>>>,
    cw: Seq<bool>,
    cap: usize,
    c0: int,
    ch: int,
    c1: int,
) -> bool {
    let start = selection_start(m.len() as int, c0);
    if exists|j: int| phase1_pick(m, cw, cap, start, j) {
        c1 == ch + 1
    } else {
        c1 == m.len()
    }
}

/// The writability flags after the given dispatches: each dispatched
/// channel is marked unwritable.  A channel takes at most one wire per
/// drain call — having taken a head, the engine cannot take another until
/// the driver has flushed and observed `can_write_head` afresh.
pub open spec fn cleared(cw: Seq<bool>, ds: Seq<Dispatch>) -> Seq<bool>
    decreases ds.len(),
{
    if ds.len() == 0 {
        cw
    } else {
        cleared(cw, ds.drop_last()).update(ds.last().channel as int, false)
    }
}

/// One drain attempt on a pool that has at least one client, relating the
/// queues, the pending queue, the cursor, the writability flags and the
/// dispatch list before and after: nothing happens when nothing is
/// pending; otherwise the front pending pair goes to the selected channel
/// when it is still writable — its entry joins that queue, its rewritten
/// wire form joins the dispatch list, and the channel becomes unwritable
/// for the rest of the drain — and to the back of the pending queue when
/// it is not.
pub open spec fn drain_step<T>(
    cap: usize,
    m0: Seq<Seq<EntryModel<T>>>,
    p0: Seq<(RequestHandle<T>, Request)>,
    c0: int,
    w0: Seq<bool>,
    o0: Seq<Dispatch>,
    m1: Seq<Seq<EntryModel<T>>>,
    p1: Seq<(RequestHandle<T>, Request)>,
    c1: int,
    w1: Seq<bool>,
    o1: Seq<Dispatch>,
) -> bool {
    if p0.len() == 0 {
        m1 == m0 && p1 == p0 && c1 == c0 && w1 == w0 && o1 == o0
    } else {
        exists|ch: int|
            {
                &&& #[trigger] selected_channel(m0, w0, cap, c0, ch)
                &&& cursor_after(m0, w0, cap, c0, ch, c1)
                &&& if w0[ch] {
                    exists|w: Request|
                        {
                            &&& #[trigger] host_rewritten(w, p0[0].1)
                            &&& m1 == m0.update(ch, m0[ch].push(fresh_entry(p0[0].0)))
                            &&& p1 == p0.drop_first()
                            &&& w1 == w0.update(ch, false)
                            &&& o1 == o0.push(Dispatch { channel: ch as usize, request: w })
                        }
                } else {
                    &&& m1 == m0
                    &&& p1 == p0.drop_first().push(p0[0])
                    &&& w1 == w0
                    &&& o1 == o0
                }
            }
    }
}

/// Exactly `steps` drain attempts in order, composing [`drain_step`].
pub open spec fn drained<T>(
    cap: usize,
    m0: Seq<Seq<EntryModel<T>>>,
    p0: Seq<(RequestHandle<T>, Request)>,
    c0: int,
    w0: Seq<bool>,
    o0: Seq<Dispatch>,
    m1: Seq<Seq<EntryModel<T>>>,
    p1: Seq<(RequestHandle<T>, Request)>,
    c1: int,
    w1: Seq<bool>,
    o1: Seq<Dispatch>,
    steps: nat,
) -> bool
    decreases steps,
{
    if steps == 0 {
        m1 == m0 && p1 == p0 && c1 == c0 && w1 == w0 && o1 == o0
    } else {
        exists|
            mm: Seq<Seq<EntryModel<T>>>,
            pp: Seq<(RequestHandle<T>, Request)>,
            cc: int,
            ww: Seq<bool>,
            oo: Seq<Dispatch>,
        |
            #![trigger drain_step(cap, mm, pp, cc, ww, oo, m1, p1, c1, w1, o1)]
            {
                &&& drained(cap, m0, p0, c0, w0, o0, mm, pp, cc, ww, oo, (steps - 1) as nat)
                &&& drain_step(cap, mm, pp, cc, ww, oo, m1, p1, c1, w1, o1)
            }
    }
}

proof fn lemma_drained_extend<T>(
    cap: usize,
    m0: Seq<Seq<EntryModel<T>>>,
    p0: Seq<(RequestHandle<T>, Request)>,
    c0: int,
    w0: Seq<bool>,
    o0: Seq<Dispatch>,
    mm: Seq<Seq<EntryModel<T>>>,
    pp: Seq<(RequestHandle<T>, Request)>,
    cc: int,
    ww: Seq<bool>,
    oo: Seq<Dispatch>,
    m1: Seq<Seq<EntryModel<T>>>,
    p1: Seq<(RequestHandle<T>, Request)>,
    c1: int,
    w1: Seq<bool>,
    o1: Seq<Dispatch>,
    steps: nat,
)
    requires
        drained(cap, m0, p0, c0, w0, o0, mm, pp, cc, ww, oo, steps),
        drain_step(cap, mm, pp, cc, ww, oo, m1, p1, c1, w1, o1),
    ensures
        drained(cap, m0, p0, c0, w0, o0, m1, p1, c1, w1, o1, (steps + 1) as nat),
{
    let s1: nat = (steps + 1) as nat;
    assert((s1 - 1) as nat == steps);
    assert(drained(cap, m0, p0, c0, w0, o0, mm, pp, cc, ww, oo, (s1 - 1) as nat));
}

/// Wherever some channel qualifies, a scan of the whole range finds a
/// first qualifying channel.
proof fn lemma_first_qualifying<T>(m: Seq<Seq<EntryModel<T>>>, cw: Seq<bool>, cap: usize, j: int)
    requires
        qualifies(m, cw, cap, j),
    ensures
        exists|i: int| phase1_pick(m, cw, cap, 0, i),
    decreases j,
{
    if forall|k: int| 0 <= k < j ==> !qualifies(m, cw, cap, k) {
        assert(phase1_pick(m, cw, cap, 0, j));
    } else {
        let k = choose|k: int| 0 <= k < j && qualifies(m, cw, cap, k);
        lemma_first_qualifying(m, cw, cap, k);
    }
}

/// Clearing flags never sets one: a channel still writable after some
/// dispatches was writable at the start, and the flag count is unchanged.
proof fn lemma_cleared_keeps(cw: Seq<bool>, ds: Seq<Dispatch>, i: int)
    requires
        0 <= i < cw.len(),
        forall|t: int| 0 <= t < ds.len() ==> (#[trigger] ds[t]).channel < cw.len(),
    ensures
        cleared(cw, ds).len() == cw.len(),
        cleared(cw, ds)[i] ==> cw[i],
    decreases ds.len(),
{
    if ds.len() > 0 {
        assert forall|t: int|
            0 <= t < ds.drop_last().len() implies (#[trigger] ds.drop_last()[t]).channel
            < cw.len() by {
            assert(ds.drop_last()[t] == ds[t]);
        }
        lemma_cleared_keeps(cw, ds.drop_last(), i);
    }
}

/// Every handle held in a client FIFO was minted below `bound`: ids come
/// from the pool's allocator, which only counts up.
pub open spec fn ids_bounded<T>(m: Seq<Seq<EntryModel<T>>>, bound: u64) -> bool {
    forall|i: int, j: int|
        0 <= i < m.len() && 0 <= j < m[i].len() ==> (#[trigger] m[i][j]).handle.spec_id() < bound
}

/// Every pending pair's handle was minted below `bound`.
pub open spec fn pending_ids_bounded<T>(
    p: Seq<(RequestHandle<T>, Request)>,
    bound: u64,
) -> bool {
    forall|i: int| 0 <= i < p.len() ==> (#[trigger] p[i]).0.spec_id() < bound
}

/// No two consecutive history entries carry the same counters.
pub open spec fn history_deduped(h: Seq<ConnectionStatisticsEntry>) -> bool {
    forall|i: int| 0 < i < h.len() ==> #[trigger] h[i].stat != h[i - 1].stat
}

/// The pool.  Its channels, engines and in-progress connection futures live
/// with the driving task, index-aligned with `clients` for the first and
/// counted by `connecting` for the last.
pub struct HttpClientPool<T> {
    clients: Vec<HttpClient<T>>,
    last_client: usize,
    connecting: usize,
    pending_requests: VecDeque<(RequestHandle<T>, Request)>,
    config: HttpClientPoolConfig,
    stats: HttpClientPoolStats,
    counter: HandleAllocator,
    lost: Ghost<int>,
    idle_failures: Ghost<int>,
}

impl<T: Copy> HttpClientPool<T> {
    pub closed spec fn spec_clients(&self) -> Seq<HttpClient<T>> {
        self.clients@
    }

    /// The queues of all living clients, channel by channel.
    pub open spec fn clients_model(&self) -> Seq<Seq<EntryModel<T>>> {
        self.spec_clients().map_values(|c: HttpClient<T>| c@)
    }

    pub closed spec fn spec_pending(&self) -> Seq<(RequestHandle<T>, Request)> {
        self.pending_requests@
    }

    pub closed spec fn spec_connecting(&self) -> int {
        self.connecting as int
    }

    pub closed spec fn spec_last_client(&self) -> int {
        self.last_client as int
    }

    pub closed spec fn spec_config(&self) -> HttpClientPoolConfig {
        self.config
    }

    pub closed spec fn spec_stats(&self) -> HttpClientPoolStats {
        self.stats
    }

    pub closed spec fn spec_counter(&self) -> HandleAllocator {
        self.counter
    }

    /// Requests that were in flight on a client when it was evicted.
    pub closed spec fn spec_lost(&self) -> int {
        self.lost@
    }

    /// Read failures reported on a channel with nothing outstanding; they
    /// increment `response_bad_count` without consuming a request.
    pub closed spec fn spec_idle_failures(&self) -> int {
        self.idle_failures@
    }

    pub open spec fn spec_history(&self) -> Seq<ConnectionStatisticsEntry> {
        self.spec_stats().history_stats@
    }

    pub open spec fn spec_on_channel(&self) -> Seq<usize> {
        self.spec_stats().request_on_channel@
    }

    pub open spec fn spec_sent(&self) -> int {
        self.spec_stats().current_stat.request_sent_count as int
    }

    pub open spec fn spec_ok(&self) -> int {
        self.spec_stats().current_stat.response_ok_count as int
    }

    pub open spec fn spec_bad(&self) -> int {
        self.spec_stats().current_stat.response_bad_count as int
    }

    pub open spec fn spec_new_count(&self) -> int {
        self.spec_stats().current_stat.connection_new_count as int
    }

    /// Accounting: every request ever accepted is in some client's FIFO, in
    /// the pending queue, answered (well or badly), or was lost to an
    /// eviction.  Bad responses read on an idle channel consumed no request
    /// and are discounted.
    pub open spec fn accounting_ok(&self) -> bool {
        self.spec_sent() == sum_lens(self.clients_model()) + self.spec_pending().len() + self.spec_ok()
            + (self.spec_bad() - self.spec_idle_failures()) + self.spec_lost()
    }

    pub open spec fn wf(&self) -> bool {
        &&& self.spec_counter().wf()
        &&& forall|i: int|
            0 <= i < self.spec_clients().len() ==> (#[trigger] self.spec_clients()[i]).wf()
        &&& self.accounting_ok()
        &&& self.spec_sent() == self.spec_counter().spec_next_id()
        &&& 0 <= self.spec_ok()
        &&& 0 <= self.spec_bad()
        &&& 0 <= self.spec_lost()
        &&& 0 <= self.spec_idle_failures() <= self.spec_bad()
        &&& 0 <= self.spec_new_count()
        &&& self.spec_clients().len() + self.spec_connecting() <= self.spec_new_count()
        &&& forall|i: int|
            0 <= i < self.spec_pending().len() ==> (#[trigger] self.spec_pending()[i]).1.wf()
        &&& ids_bounded(self.clients_model(), self.spec_counter().spec_next_id())
        &&& pending_ids_bounded(self.spec_pending(), self.spec_counter().spec_next_id())
        &&& self.spec_stats().current_stat.request_initiated_count == 0
        &&& history_deduped(self.spec_history())
    }

    /// An empty pool under the given policy.
    pub fn new(config: HttpClientPoolConfig) -> (r: Self)
        ensures
            r.wf(),
            r.spec_clients().len() == 0,
            r.spec_connecting() == 0,
            r.spec_pending().len() == 0,
            r.spec_config() == config,
            r.spec_stats().current_stat == stats_zero(),
            r.spec_history().len() == 0,
            r.spec_on_channel().len() == 0,
            r.spec_counter().spec_next_id() == 0,
            r.spec_last_client() == 0,
            r.spec_lost() == 0,
            r.spec_idle_failures() == 0,
    {
        let r = HttpClientPool {
            clients: Vec::new(),
            last_client: 0,
            connecting: 0,
            pending_requests: VecDeque::new(),
            config,
            stats: HttpClientPoolStats {
                current_stat: ConnectionStatistics::default(),
                history_stats: Vec::new(),
                request_on_channel: Vec::new(),
            },
            counter: HandleAllocator::new(),
            lost: Ghost(0),
            idle_failures: Ghost(0),
        };
        proof {
            assert(r.clients_model() =~= Seq::<Seq<EntryModel<T>>>::empty());
        }
        r
    }

    /// A borrow of the statistics record.
    pub fn get_status_records(&self) -> (r: &HttpClientPoolStats)
        ensures
            *r == self.spec_stats(),
    {
        &self.stats
    }

    /// Refreshes the gauges from the pool's real state and appends a
    /// timestamped snapshot to the history — unless it would repeat the
    /// last entry, which keeps the history free of consecutive duplicates.
    pub fn record_status(&mut self, now_micros: u64)
        requires
            old(self).wf(),
        ensures
            final(self).wf(),
            final(self).spec_stats().current_stat == (ConnectionStatistics {
                connection_living_count: old(self).spec_clients().len() as i64,
                connection_connecting_count: old(self).spec_connecting() as i64,
                request_pending_count: old(self).spec_pending().len() as i64,
                ..old(self).spec_stats().current_stat
            }),
            ({
                let cur = final(self).spec_stats().current_stat;
                let h = old(self).spec_history();
                if h.len() > 0 && h.last().stat == cur {
                    final(self).spec_history() == h
                } else {
                    final(self).spec_history() == h.push(
                        ConnectionStatisticsEntry { time: now_micros, stat: cur },
                    )
                }
            }),
            final(self).spec_clients() == old(self).spec_clients(),
            final(self).spec_pending() == old(self).spec_pending(),
            final(self).spec_connecting() == old(self).spec_connecting(),
            final(self).spec_last_client() == old(self).spec_last_client(),
            final(self).spec_config() == old(self).spec_config(),
            final(self).spec_counter() == old(self).spec_counter(),
            final(self).spec_on_channel() == old(self).spec_on_channel(),
            final(self).spec_lost() == old(self).spec_lost(),
            final(self).spec_idle_failures() == old(self).spec_idle_failures(),
    {
        proof {
            lemma_sum_lens_nonneg(self.clients_model());
        }
        self.stats.current_stat.connection_connecting_count = self.connecting as i64;
        self.stats.current_stat.connection_living_count = self.clients.len() as i64;
        self.stats.current_stat.request_pending_count = self.pending_requests.len() as i64;
        let hlen = self.stats.history_stats.len();
        let must_push: bool = if hlen == 0 {
            true
        } else {
            !(self.stats.history_stats[hlen - 1].stat == self.stats.current_stat)
        };
        if must_push {
            self.stats.history_stats.push(
                ConnectionStatisticsEntry { time: now_micros, stat: self.stats.current_stat },
            );
        }
    }

    /// Picks the channel for the next submission: round-robin from the
    /// cursor over qualifying channels, falling back to the least loaded
    /// channel when none qualifies.  `None` only when the pool has no
    /// clients.
    #[verifier::loop_isolation(false)]
    fn select_client(&mut self, can_write: &Vec<bool>) -> (r: Option<usize>)
        requires
            can_write@.len() == old(self).spec_clients().len(),
        ensures
            final(self).spec_clients() == old(self).spec_clients(),
            final(self).spec_pending() == old(self).spec_pending(),
            final(self).spec_connecting() == old(self).spec_connecting(),
            final(self).spec_config() == old(self).spec_config(),
            final(self).spec_counter() == old(self).spec_counter(),
            final(self).spec_stats() == old(self).spec_stats(),
            final(self).spec_lost() == old(self).spec_lost(),
            final(self).spec_idle_failures() == old(self).spec_idle_failures(),
            r is Some <==> old(self).spec_clients().len() > 0,
            r matches Some(i) ==> i < old(self).spec_clients().len() && selected_channel(
                old(self).clients_model(),
                can_write@,
                old(self).spec_config().max_conv_per_channel,
                old(self).spec_last_client(),
                i as int,
            ),
            r matches Some(i) ==> ({
                let m = old(self).clients_model();
                let start = selection_start(m.len() as int, old(self).spec_last_client());
                if exists|j: int|
                    phase1_pick(
                        m,
                        can_write@,
                        old(self).spec_config().max_conv_per_channel,
                        start,
                        j,
                    ) {
                    final(self).spec_last_client() == i + 1
                } else {
                    final(self).spec_last_client() == m.len()
                }
            }),
            r is None ==> final(self).spec_last_client() == 0,
    {
        let ghost m = self.clients_model();
        let ghost cw = can_write@;
        let ghost cap0 = self.config.max_conv_per_channel;
        if self.last_client >= self.clients.len() {
            self.last_client = 0;
        }
        let ghost start = self.last_client as int;
        proof {
            assert(start == selection_start(m.len() as int, old(self).spec_last_client()));
        }
        let total_len = self.clients.len();
        let mut cur = self.last_client;
        let mut found: Option<usize> = None;
        while cur < total_len && found.is_none()
            invariant
                start <= cur <= total_len,
                found is None ==> forall|k: int| start <= k < cur ==> !qualifies(m, cw, cap0, k),
                found matches Some(i) ==> phase1_pick(m, cw, cap0, start, i as int) && cur == i
                    + 1,
            decreases total_len - cur,
        {
            let id = cur;
            cur = cur + 1;
            let under_cap = self.clients[id].queue_len() < self.config.max_conv_per_channel;
            if can_write[id] && under_cap {
                found = Some(id);
            }
        }
        self.last_client = cur;
        if found.is_none() {
            if self.clients.len() == 0 {
                return None;
            }
            proof {
                assert forall|j: int| !phase1_pick(m, cw, cap0, start, j) by {
                    if start <= j < m.len() {
                        assert(!qualifies(m, cw, cap0, j));
                    }
                }
            }
            let mut best: usize = 0;
            let mut k: usize = 1;
            while k < self.clients.len()
                invariant
                    0 <= best < k <= self.clients@.len(),
                    forall|j: int| 0 <= j < k ==> m[best as int].len() <= (#[trigger] m[j]).len(),
                    forall|j: int| 0 <= j < best ==> m[best as int].len() < (#[trigger] m[j]).len(),
                decreases self.clients@.len() - k,
            {
                if self.clients[k].queue_len() < self.clients[best].queue_len() {
                    best = k;
                }
                k = k + 1;
            }
            proof {
                assert(fallback_pick(m, best as int));
            }
            found = Some(best);
        }
        found
    }

    /// Asks the driving task for one more connection attempt and counts it.
    fn make_connection(&mut self)
        requires
            old(self).spec_new_count() < i64::MAX,
            old(self).spec_connecting() < usize::MAX,
        ensures
            final(self).spec_connecting() == old(self).spec_connecting() + 1,
            final(self).spec_new_count() == old(self).spec_new_count() + 1,
            final(self).spec_clients() == old(self).spec_clients(),
            final(self).spec_pending() == old(self).spec_pending(),
            final(self).spec_config() == old(self).spec_config(),
            final(self).spec_counter() == old(self).spec_counter(),
            final(self).spec_last_client() == old(self).spec_last_client(),
            final(self).spec_lost() == old(self).spec_lost(),
            final(self).spec_idle_failures() == old(self).spec_idle_failures(),
            final(self).spec_stats() == (HttpClientPoolStats {
                current_stat: final(self).spec_stats().current_stat,
                ..old(self).spec_stats()
            }),
            final(self).spec_stats().current_stat == (ConnectionStatistics {
                connection_new_count: (old(self).spec_stats().current_stat.connection_new_count
                    + 1) as i64,
                ..old(self).spec_stats().current_stat
            }),
    {
        self.stats.current_stat.connection_new_count = self.stats.current_stat.connection_new_count
            + 1;
        self.connecting = self.connecting + 1;
    }

    /// Starts as many connection attempts as the maintenance floor asks
    /// for, and returns how many the driving task must begin.  After the
    /// call, living plus in-progress connections reach the floor.
    #[verifier::loop_isolation(false)]
    pub fn poll_maintain_connection(&mut self) -> (started: usize)
        requires
            old(self).wf(),
            old(self).spec_config().maintain_size matches Some(n) ==> old(self).spec_new_count()
                + n <= i64::MAX,
        ensures
            final(self).wf(),
            final(self).spec_config().maintain_size matches Some(n)
                ==> final(self).spec_clients().len() + final(self).spec_connecting() >= n,
            ({
                let deficit = match old(self).spec_config().maintain_size {
                    Some(n) => if old(self).spec_clients().len() + old(self).spec_connecting()
                        < n {
                        n - old(self).spec_clients().len() - old(self).spec_connecting()
                    } else {
                        0
                    },
                    None => 0,
                };
                &&& started == deficit
                &&& final(self).spec_connecting() == old(self).spec_connecting() + deficit
                &&& final(self).spec_new_count() == old(self).spec_new_count() + deficit
            }),
            final(self).spec_clients() == old(self).spec_clients(),
            final(self).spec_pending() == old(self).spec_pending(),
            final(self).spec_config() == old(self).spec_config(),
            final(self).spec_counter() == old(self).spec_counter(),
            final(self).spec_last_client() == old(self).spec_last_client(),
            final(self).spec_lost() == old(self).spec_lost(),
            final(self).spec_idle_failures() == old(self).spec_idle_failures(),
            final(self).spec_stats() == (HttpClientPoolStats {
                current_stat: final(self).spec_stats().current_stat,
                ..old(self).spec_stats()
            }),
            final(self).spec_stats().current_stat == (ConnectionStatistics {
                connection_new_count: final(self).spec_stats().current_stat.connection_new_count,
                ..old(self).spec_stats().current_stat
            }),
    {
        let n = match self.config.maintain_size {
            Some(n) => n,
            None => {
                return 0;
            },
        };
        let living = self.clients.len();
        if living >= n {
            return 0;
        }
        let target = n - living;
        let mut started: usize = 0;
        while self.connecting < target
            invariant
                self.spec_clients() == old(self).spec_clients(),
                self.spec_pending() == old(self).spec_pending(),
                self.spec_config() == old(self).spec_config(),
                self.spec_counter() == old(self).spec_counter(),
                self.spec_last_client() == old(self).spec_last_client(),
                self.spec_lost() == old(self).spec_lost(),
                self.spec_idle_failures() == old(self).spec_idle_failures(),
                self.spec_stats() == (HttpClientPoolStats {
                    current_stat: self.spec_stats().current_stat,
                    ..old(self).spec_stats()
                }),
                self.spec_stats().current_stat == (ConnectionStatistics {
                    connection_new_count: self.spec_stats().current_stat.connection_new_count,
                    ..old(self).spec_stats().current_stat
                }),
                self.spec_connecting() == old(self).spec_connecting() + started,
                self.spec_new_count() == old(self).spec_new_count() + started,
                self.spec_connecting() <= target || started == 0,
                self.wf(),
            decreases target - self.spec_connecting(),
        {
            self.make_connection();
            started = started + 1;
        }
        started
    }

    /// Accounts for resolved connection attempts: `succeeded` channels came
    /// up (one fresh client each, appended in order) and `failed` attempts
    /// were dropped.
    #[verifier::loop_isolation(false)]
    pub fn poll_connecting(&mut self, succeeded: usize, failed: usize)
        requires
            old(self).wf(),
            succeeded + failed <= old(self).spec_connecting(),
        ensures
            final(self).wf(),
            final(self).spec_connecting() == old(self).spec_connecting() - succeeded - failed,
            final(self).spec_clients().len() == old(self).spec_clients().len() + succeeded,
            forall|i: int|
                0 <= i < old(self).spec_clients().len() ==> final(self).clients_model()[i] == old(
                    self,
                ).clients_model()[i],
            forall|i: int|
                old(self).spec_clients().len() <= i < final(self).spec_clients().len()
                    ==> final(self).clients_model()[i] == Seq::<EntryModel<T>>::empty(),
            final(self).spec_pending() == old(self).spec_pending(),
            final(self).spec_config() == old(self).spec_config(),
            final(self).spec_counter() == old(self).spec_counter(),
            final(self).spec_last_client() == old(self).spec_last_client(),
            final(self).spec_lost() == old(self).spec_lost(),
            final(self).spec_idle_failures() == old(self).spec_idle_failures(),
            final(self).spec_stats() == old(self).spec_stats(),
    {
        self.connecting = self.connecting - succeeded;
        self.connecting = self.connecting - failed;
        let mut k: usize = 0;
        while k < succeeded
            invariant
                k <= succeeded,
                self.clients@.len() == old(self).clients@.len() + k,
                forall|i: int|
                    0 <= i < old(self).clients@.len() ==> self.clients@[i] == old(
                        self,
                    ).clients@[i],
                forall|i: int|
                    old(self).clients@.len() <= i < self.clients@.len() ==> (
                    #[trigger] self.clients@[i])@ == Seq::<EntryModel<T>>::empty() && self.clients@[i].wf(),
                sum_lens(self.clients_model()) == sum_lens(old(self).clients_model()),
                self.pending_requests@ == old(self).pending_requests@,
                self.config == old(self).config,
                self.counter == old(self).counter,
                self.last_client == old(self).last_client,
                self.lost@ == old(self).lost@,
                self.idle_failures@ == old(self).idle_failures@,
                self.stats == old(self).stats,
                self.connecting == old(self).connecting - succeeded - failed,
            decreases succeeded - k,
        {
            let ghost pre = self.clients_model();
            self.clients.push(HttpClient::new());
            k = k + 1;
            proof {
                assert(self.clients_model() =~= pre.push(Seq::<EntryModel<T>>::empty()));
                lemma_sum_lens_push(pre, Seq::<EntryModel<T>>::empty());
            }
        }
        proof {
            let bound = self.counter.spec_next_id();
            assert forall|i: int, j: int|
                0 <= i < self.clients_model().len() && 0 <= j
                    < self.clients_model()[i].len() implies (
            #[trigger] self.clients_model()[i][j]).handle.spec_id() < bound by {
                if i < old(self).clients@.len() {
                    assert(self.clients_model()[i] == old(self).clients_model()[i]);
                    assert(old(self).clients_model()[i][j].handle.spec_id() < bound);
                }
            }
        }
    }

    /// Accepts one request: mints a handle, routes the request to the
    /// selected channel if that channel's engine can take it, and otherwise
    /// queues it as pending — starting one connection attempt when the pool
    /// has no client and is allowed another.  The handle is always
    /// returned; the request counts as sent; a snapshot is recorded.
    pub fn request(
        &mut self,
        request: Request,
        data: T,
        can_write: &Vec<bool>,
        now_micros: u64,
    ) -> (r: SubmitResult<T>)
        requires
            old(self).wf(),
            request.wf(),
            can_write@.len() == old(self).spec_clients().len(),
            old(self).spec_counter().spec_next_id() < i64::MAX,
            old(self).spec_new_count() < i64::MAX,
        ensures
            final(self).wf(),
            r.handle.spec_id() == old(self).spec_counter().spec_next_id(),
            r.handle.spec_data() == data,
            final(self).spec_counter().spec_next_id() == old(self).spec_counter().spec_next_id()
                + 1,
            final(self).spec_sent() == old(self).spec_sent() + 1,
            final(self).spec_ok() == old(self).spec_ok(),
            final(self).spec_bad() == old(self).spec_bad(),
            final(self).spec_lost() == old(self).spec_lost(),
            final(self).spec_idle_failures() == old(self).spec_idle_failures(),
            final(self).spec_clients().len() == old(self).spec_clients().len(),
            final(self).spec_config() == old(self).spec_config(),
            r.dispatch matches Some(d) ==> ({
                &&& d.channel < old(self).spec_clients().len()
                &&& can_write@[d.channel as int]
                &&& selected_channel(
                    old(self).clients_model(),
                    can_write@,
                    old(self).spec_config().max_conv_per_channel,
                    old(self).spec_last_client(),
                    d.channel as int,
                )
                &&& host_rewritten(d.request, request)
                &&& final(self).clients_model() == old(self).clients_model().update(
                    d.channel as int,
                    old(self).clients_model()[d.channel as int].push(fresh_entry(r.handle)),
                )
                &&& final(self).spec_pending() == old(self).spec_pending()
                &&& final(self).spec_on_channel() == old(self).spec_on_channel().push(d.channel)
                &&& !r.connect
            }),
            r.dispatch is None ==> ({
                &&& final(self).clients_model() == old(self).clients_model()
                &&& final(self).spec_pending() == old(self).spec_pending().push(
                    (r.handle, request),
                )
                &&& final(self).spec_on_channel() == old(self).spec_on_channel()
            }),
            (exists|j: int|
                qualifies(
                    old(self).clients_model(),
                    can_write@,
                    old(self).spec_config().max_conv_per_channel,
                    j,
                )) ==> (r.dispatch matches Some(d) ==> old(self).clients_model()[
                d.channel as int
            ].len() < old(self).spec_config().max_conv_per_channel),
            old(self).spec_clients().len() > 0 ==> (r.dispatch is None ==> (exists|ch: int|
                selected_channel(
                    old(self).clients_model(),
                    can_write@,
                    old(self).spec_config().max_conv_per_channel,
                    old(self).spec_last_client(),
                    ch,
                ) && !can_write@[ch])),
            old(self).spec_clients().len() == 0 ==> final(self).spec_last_client() == 0,
            old(self).spec_clients().len() > 0 ==> ({
                let m = old(self).clients_model();
                let cap = old(self).spec_config().max_conv_per_channel;
                let start = selection_start(m.len() as int, old(self).spec_last_client());
                if exists|j: int| phase1_pick(m, can_write@, cap, start, j) {
                    exists|i: int|
                        phase1_pick(m, can_write@, cap, start, i) && final(self).spec_last_client() == i + 1
                } else {
                    final(self).spec_last_client() == m.len()
                }
            }),
            r.connect <==> (old(self).spec_clients().len() == 0 && old(self).spec_connecting()
                < maintain_or_unlimited(old(self).spec_config())),
            r.connect ==> final(self).spec_connecting() == old(self).spec_connecting() + 1
                && final(self).spec_new_count() == old(self).spec_new_count() + 1,
            !r.connect ==> final(self).spec_connecting() == old(self).spec_connecting()
                && final(self).spec_new_count() == old(self).spec_new_count(),
            final(self).spec_stats().current_stat.connection_living_count == final(self).spec_clients().len() as i64,
            final(self).spec_stats().current_stat.connection_connecting_count == final(self).spec_connecting() as i64,
            final(self).spec_stats().current_stat.request_pending_count == final(self).spec_pending().len() as i64,
            ({
                let cur = final(self).spec_stats().current_stat;
                let h = old(self).spec_history();
                if h.len() > 0 && h.last().stat == cur {
                    final(self).spec_history() == h
                } else {
                    final(self).spec_history() == h.push(
                        ConnectionStatisticsEntry { time: now_micros, stat: cur },
                    )
                }
            }),
    {
        let ghost m0 = self.clients_model();
        let ghost cw0 = can_write@;
        let ghost cap0 = self.config.max_conv_per_channel;
        let ghost cursor0 = self.spec_last_client();
        let handle = RequestHandle::unique(&mut self.counter, data);
        let sel = self.select_client(can_write);
        let mut dispatch: Option<Dispatch> = None;
        let mut connect = false;
        match sel {
            Some(i) => {
                let cw_i = can_write[i];
                let c = &mut self.clients[i];
                let res = c.request_with_handle(request, handle, cw_i);
                proof {
                    assert(self.clients_model() =~= m0.update(i as int, self.clients@[i as int]@));
                }
                match res {
                    Ok(wire) => {
                        proof {
                            lemma_sum_lens_update(
                                m0,
                                i as int,
                                m0[i as int].push(fresh_entry(handle)),
                            );
                        }
                        self.stats.request_on_channel.push(i);
                        dispatch = Some(Dispatch { channel: i, request: wire });
                    },
                    Err(back) => {
                        proof {
                            assert(self.clients_model() =~= m0);
                        }
                        self.pending_requests.push_back((handle, back));
                    },
                }
            },
            None => {
                self.pending_requests.push_back((handle, request));
                let bound = match self.config.maintain_size {
                    Some(n) => n,
                    None => usize::MAX,
                };
                if self.connecting < bound {
                    self.make_connection();
                    connect = true;
                }
            },
        }
        self.stats.current_stat.request_sent_count = self.stats.current_stat.request_sent_count
            + 1;
        proof {
            if dispatch is None {
                assert(self.clients_model() =~= m0);
            }
            lemma_sum_lens_nonneg(self.clients_model());
        }
        self.record_status(now_micros);
        proof {
            match &dispatch {
                Some(d) => {
                    if exists|j: int| qualifies(m0, cw0, cap0, j) {
                        let j = choose|j: int| qualifies(m0, cw0, cap0, j);
                        lemma_soft_cap(m0, cw0, cap0, cursor0, d.channel as int, j);
                    }
                },
                None => {},
            }
        }
        SubmitResult { handle, dispatch, connect }
    }

    /// Drains the pending queue onto available channels, at most ten
    /// attempts per call: each attempt pops the front pending request and
    /// routes it as `request` does — dispatched when the selected channel
    /// can still take a head, re-appended to the back of the queue when it
    /// cannot (so it keeps its turn without blocking the drain).  A channel
    /// takes at most one wire per call: once written, the engine cannot
    /// take another head until the driver has flushed and observed
    /// `can_write_head` afresh, so the drain marks it unwritable for the
    /// rest of the call.  Selection includes the overload fallback, so
    /// under a burst a pending request may land on a writable channel even
    /// at the soft cap rather than waiting indefinitely.  With no client at
    /// all the queue is left exactly as it was.  Returns the writes the
    /// driving task must perform, in order.
    pub fn poll_send_request(&mut self, can_write: &Vec<bool>) -> (dispatches: Vec<Dispatch>)
        requires
            old(self).wf(),
            can_write@.len() == old(self).spec_clients().len(),
        ensures
            final(self).wf(),
            dispatches@.len() <= 10,
            final(self).spec_clients().len() == old(self).spec_clients().len(),
            final(self).spec_counter() == old(self).spec_counter(),
            final(self).spec_connecting() == old(self).spec_connecting(),
            final(self).spec_config() == old(self).spec_config(),
            final(self).spec_lost() == old(self).spec_lost(),
            final(self).spec_idle_failures() == old(self).spec_idle_failures(),
            final(self).spec_stats().current_stat == old(self).spec_stats().current_stat,
            final(self).spec_history() == old(self).spec_history(),
            sum_lens(final(self).clients_model()) + final(self).spec_pending().len() == sum_lens(
                old(self).clients_model(),
            ) + old(self).spec_pending().len(),
            old(self).spec_pending().len() == 0 ==> final(self).clients_model() == old(
                self,
            ).clients_model() && final(self).spec_pending().len() == 0 && dispatches@.len() == 0,
            final(self).spec_on_channel() == old(self).spec_on_channel()
                + dispatches@.map_values(|d: Dispatch| d.channel),
            forall|k: int|
                0 <= k < dispatches@.len() ==> (#[trigger] dispatches@[k]).channel < old(
                    self,
                ).spec_clients().len() && can_write@[dispatches@[k].channel as int],
            forall|t1: int, t2: int|
                0 <= t1 < t2 < dispatches@.len() ==> (#[trigger] dispatches@[t1]).channel != (
                #[trigger] dispatches@[t2]).channel,
            forall|i: int|
                0 <= i < old(self).spec_clients().len() ==> (#[trigger] old(
                    self,
                ).clients_model()[i]).is_prefix_of(final(self).clients_model()[i]),
            old(self).spec_clients().len() == 0 ==> final(self).spec_pending() == old(
                self,
            ).spec_pending() && final(self).clients_model() == old(self).clients_model()
                && dispatches@.len() == 0 && final(self).spec_last_client() == (
            if old(self).spec_pending().len() == 0 {
                old(self).spec_last_client()
            } else {
                0int
            }),
            old(self).spec_clients().len() > 0 ==> drained(
                old(self).spec_config().max_conv_per_channel,
                old(self).clients_model(),
                old(self).spec_pending(),
                old(self).spec_last_client(),
                can_write@,
                Seq::<Dispatch>::empty(),
                final(self).clients_model(),
                final(self).spec_pending(),
                final(self).spec_last_client(),
                cleared(can_write@, dispatches@),
                dispatches@,
                10,
            ),
            (old(self).spec_pending().len() > 0 && (exists|j: int|
                qualifies(
                    old(self).clients_model(),
                    can_write@,
                    old(self).spec_config().max_conv_per_channel,
                    j,
                ))) ==> dispatches@.len() >= 1,
    {
        let ghost m0 = self.clients_model();
        let ghost p0 = self.pending_requests@;
        let ghost cur0 = self.spec_last_client();
        let ghost cw0 = can_write@;
        let ghost cap0 = self.config.max_conv_per_channel;
        let mut writable: Vec<bool> = Vec::new();
        let mut k: usize = 0;
        while k < can_write.len()
            invariant
                k <= can_write@.len(),
                writable@ == can_write@.take(k as int),
            decreases can_write@.len() - k,
        {
            writable.push(can_write[k]);
            proof {
                assert(writable@ =~= can_write@.take(k as int + 1));
            }
            k = k + 1;
        }
        proof {
            assert(writable@ =~= cw0);
        }
        let mut out: Vec<Dispatch> = Vec::new();
        let mut iter: usize = 0;
        proof {
            assert(self.spec_on_channel() =~= old(self).spec_on_channel() + out@.map_values(
                |d: Dispatch| d.channel,
            ));
            assert forall|i: int| 0 <= i < m0.len() implies (#[trigger] m0[i]).is_prefix_of(
                self.clients_model()[i],
            ) by {
                assert(m0[i].take(m0[i].len() as int) =~= m0[i]);
            }
        }
        while iter < 10
            invariant_except_break
                old(self).spec_clients().len() == 0 ==> self.spec_last_client() == cur0 && (
                p0.len() > 0 ==> iter == 0),
            invariant
                self.wf(),
                iter <= 10,
                out@.len() <= iter,
                m0 == old(self).clients_model(),
                p0 == old(self).pending_requests@,
                cur0 == old(self).spec_last_client(),
                cw0 == can_write@,
                cap0 == old(self).spec_config().max_conv_per_channel,
                can_write@.len() == old(self).clients@.len(),
                writable@ == cleared(cw0, out@),
                writable@.len() == cw0.len(),
                forall|t: int|
                    0 <= t < out@.len() ==> !writable@[(#[trigger] out@[t]).channel as int],
                forall|t1: int, t2: int|
                    0 <= t1 < t2 < out@.len() ==> (#[trigger] out@[t1]).channel != (
                    #[trigger] out@[t2]).channel,
                old(self).spec_pending().len() == 0 ==> self.clients_model() == m0
                    && self.spec_pending().len() == 0 && out@.len() == 0,
                old(self).spec_clients().len() == 0 ==> self.clients_model() == m0
                    && self.pending_requests@ == p0 && out@.len() == 0,
                old(self).spec_clients().len() > 0 ==> drained(
                    cap0,
                    m0,
                    p0,
                    cur0,
                    cw0,
                    Seq::<Dispatch>::empty(),
                    self.clients_model(),
                    self.pending_requests@,
                    self.spec_last_client(),
                    writable@,
                    out@,
                    iter as nat,
                ),
                out@.len() == 0 ==> self.clients_model() == m0 && writable@ == cw0
                    && self.pending_requests@.len() == p0.len(),
                out@.len() == 0 && iter >= 1 && p0.len() > 0 && m0.len() > 0
                    ==> self.spec_last_client() == m0.len(),
                p0.len() > 0 && (exists|j: int| qualifies(m0, cw0, cap0, j)) && iter >= 2
                    ==> out@.len() >= 1,
                self.clients@.len() == old(self).clients@.len(),
                self.counter == old(self).counter,
                self.connecting == old(self).connecting,
                self.config == old(self).config,
                self.lost@ == old(self).lost@,
                self.idle_failures@ == old(self).idle_failures@,
                self.stats.current_stat == old(self).stats.current_stat,
                self.stats.history_stats == old(self).stats.history_stats,
                sum_lens(self.clients_model()) + self.spec_pending().len() == sum_lens(m0) + old(
                    self,
                ).spec_pending().len(),
                self.spec_on_channel() == old(self).spec_on_channel() + out@.map_values(
                    |d: Dispatch| d.channel,
                ),
                forall|kk: int|
                    0 <= kk < out@.len() ==> (#[trigger] out@[kk]).channel < old(
                        self,
                    ).spec_clients().len() && can_write@[out@[kk].channel as int],
                forall|i: int|
                    0 <= i < m0.len() ==> (#[trigger] m0[i]).is_prefix_of(
                        self.clients_model()[i],
                    ),
            ensures
                self.wf(),
                out@.len() <= 10,
                m0 == old(self).clients_model(),
                old(self).spec_pending().len() == 0 ==> self.clients_model() == m0
                    && self.spec_pending().len() == 0 && out@.len() == 0,
                old(self).spec_clients().len() == 0 ==> self.clients_model() == m0
                    && self.pending_requests@ == p0 && out@.len() == 0
                    && self.spec_last_client() == (if p0.len() == 0 {
                    cur0
                } else {
                    0int
                }),
                old(self).spec_clients().len() > 0 ==> drained(
                    cap0,
                    m0,
                    p0,
                    cur0,
                    cw0,
                    Seq::<Dispatch>::empty(),
                    self.clients_model(),
                    self.pending_requests@,
                    self.spec_last_client(),
                    writable@,
                    out@,
                    10,
                ),
                writable@ == cleared(cw0, out@),
                p0.len() > 0 && (exists|j: int| qualifies(m0, cw0, cap0, j)) ==> out@.len()
                    >= 1,
                forall|t1: int, t2: int|
                    0 <= t1 < t2 < out@.len() ==> (#[trigger] out@[t1]).channel != (
                    #[trigger] out@[t2]).channel,
                self.clients@.len() == old(self).clients@.len(),
                self.counter == old(self).counter,
                self.connecting == old(self).connecting,
                self.config == old(self).config,
                self.lost@ == old(self).lost@,
                self.idle_failures@ == old(self).idle_failures@,
                self.stats.current_stat == old(self).stats.current_stat,
                self.stats.history_stats == old(self).stats.history_stats,
                sum_lens(self.clients_model()) + self.spec_pending().len() == sum_lens(m0) + old(
                    self,
                ).spec_pending().len(),
                self.spec_on_channel() == old(self).spec_on_channel() + out@.map_values(
                    |d: Dispatch| d.channel,
                ),
                forall|kk: int|
                    0 <= kk < out@.len() ==> (#[trigger] out@[kk]).channel < old(
                        self,
                    ).spec_clients().len() && can_write@[out@[kk].channel as int],
                forall|i: int|
                    0 <= i < m0.len() ==> (#[trigger] m0[i]).is_prefix_of(
                        self.clients_model()[i],
                    ),
            decreases 10 - iter,
        {
            let ghost m_pre = self.clients_model();
            let ghost p_pre = self.pending_requests@;
            let ghost c_pre = self.spec_last_client();
            let ghost w_pre = writable@;
            let ghost o_pre = out@;
            let popped = self.pending_requests.pop_front();
            match popped {
                None => {
                    proof {
                        if old(self).spec_clients().len() > 0 {
                            assert(drain_step(
                                cap0,
                                m_pre,
                                p_pre,
                                c_pre,
                                w_pre,
                                o_pre,
                                self.clients_model(),
                                self.pending_requests@,
                                self.spec_last_client(),
                                writable@,
                                out@,
                            ));
                            lemma_drained_extend(
                                cap0,
                                m0,
                                p0,
                                cur0,
                                cw0,
                                Seq::<Dispatch>::empty(),
                                m_pre,
                                p_pre,
                                c_pre,
                                w_pre,
                                o_pre,
                                self.clients_model(),
                                self.pending_requests@,
                                self.spec_last_client(),
                                writable@,
                                out@,
                                iter as nat,
                            );
                            assert(drained(
                                cap0,
                                m0,
                                p0,
                                cur0,
                                cw0,
                                Seq::<Dispatch>::empty(),
                                self.clients_model(),
                                self.pending_requests@,
                                self.spec_last_client(),
                                writable@,
                                out@,
                                (iter + 1) as nat,
                            ));
                        }
                    }
                },
                Some((handle, req)) => {
                    let sel = self.select_client(&writable);
                    match sel {
                        Some(i) => {
                            let cw_i = writable[i];
                            let c = &mut self.clients[i];
                            let res = c.request_with_handle(req, handle, cw_i);
                            proof {
                                assert(self.clients_model() =~= m_pre.update(
                                    i as int,
                                    self.clients@[i as int]@,
                                ));
                            }
                            match res {
                                Ok(wire) => {
                                    proof {
                                        lemma_sum_lens_update(
                                            m_pre,
                                            i as int,
                                            m_pre[i as int].push(fresh_entry(handle)),
                                        );
                                        assert forall|ii: int| 0 <= ii < m0.len() implies (
                                        #[trigger] m0[ii]).is_prefix_of(
                                            self.clients_model()[ii],
                                        ) by {
                                            if ii == i as int {
                                                let a = m0[ii];
                                                let b = m_pre[ii];
                                                let cx = self.clients_model()[ii];
                                                assert(b.is_prefix_of(cx)) by {
                                                    assert(cx =~= b.push(fresh_entry(handle)));
                                                    assert(cx.take(b.len() as int) =~= b);
                                                }
                                                assert(cx.take(a.len() as int) =~= a);
                                            }
                                        }
                                    }
                                    self.stats.request_on_channel.push(i);
                                    out.push(Dispatch { channel: i, request: wire });
                                    let wi = &mut writable[i];
                                    *wi = false;
                                    proof {
                                        assert(out@.map_values(|d: Dispatch| d.channel)
                                            =~= out@.drop_last().map_values(
                                            |d: Dispatch| d.channel,
                                        ).push(i));
                                        assert(self.spec_on_channel() =~= old(
                                            self,
                                        ).spec_on_channel() + out@.map_values(
                                            |d: Dispatch| d.channel,
                                        ));
                                        assert(self.pending_requests@ =~= p_pre.drop_first());
                                        assert(handle == p_pre[0].0);
                                        assert(host_rewritten(out@.last().request, p_pre[0].1));
                                        assert(self.clients_model() =~= m_pre.update(
                                            i as int,
                                            m_pre[i as int].push(fresh_entry(p_pre[0].0)),
                                        ));
                                        assert(selected_channel(
                                            m_pre,
                                            w_pre,
                                            cap0,
                                            c_pre,
                                            i as int,
                                        ));
                                        assert(cursor_after(
                                            m_pre,
                                            w_pre,
                                            cap0,
                                            c_pre,
                                            i as int,
                                            self.spec_last_client(),
                                        ));
                                        assert(w_pre[i as int]);
                                        assert(writable@ =~= w_pre.update(i as int, false));
                                        assert(out@.drop_last() =~= o_pre);
                                        assert(cleared(cw0, out@) == cleared(
                                            cw0,
                                            o_pre,
                                        ).update(i as int, false));
                                        lemma_cleared_keeps(cw0, o_pre, i as int);
                                        assert(drain_step(
                                            cap0,
                                            m_pre,
                                            p_pre,
                                            c_pre,
                                            w_pre,
                                            o_pre,
                                            self.clients_model(),
                                            self.pending_requests@,
                                            self.spec_last_client(),
                                            writable@,
                                            out@,
                                        ));
                                        lemma_drained_extend(
                                            cap0,
                                            m0,
                                            p0,
                                            cur0,
                                            cw0,
                                            Seq::<Dispatch>::empty(),
                                            m_pre,
                                            p_pre,
                                            c_pre,
                                            w_pre,
                                            o_pre,
                                            self.clients_model(),
                                            self.pending_requests@,
                                            self.spec_last_client(),
                                            writable@,
                                            out@,
                                            iter as nat,
                                        );
                                        assert(drained(
                                            cap0,
                                            m0,
                                            p0,
                                            cur0,
                                            cw0,
                                            Seq::<Dispatch>::empty(),
                                            self.clients_model(),
                                            self.pending_requests@,
                                            self.spec_last_client(),
                                            writable@,
                                            out@,
                                            (iter + 1) as nat,
                                        ));
                                        assert forall|t: int|
                                            0 <= t < out@.len() implies !writable@[(
                                        #[trigger] out@[t]).channel as int] by {
                                            if t < o_pre.len() as int {
                                                assert(!w_pre[o_pre[t].channel as int]);
                                            }
                                        }
                                        assert forall|t1: int, t2: int|
                                            0 <= t1 < t2 < out@.len() implies (
                                        #[trigger] out@[t1]).channel != (
                                        #[trigger] out@[t2]).channel by {
                                            if t2 == out@.len() - 1 {
                                                assert(!w_pre[o_pre[t1].channel as int]);
                                                assert(w_pre[i as int]);
                                            }
                                        }
                                    }
                                },
                                Err(back) => {
                                    proof {
                                        assert(self.clients_model() =~= m_pre);
                                    }
                                    self.pending_requests.push_back((handle, back));
                                    proof {
                                        assert((handle, back) == p_pre[0]);
                                        assert(self.pending_requests@
                                            =~= p_pre.drop_first().push(p_pre[0]));
                                        assert(selected_channel(
                                            m_pre,
                                            w_pre,
                                            cap0,
                                            c_pre,
                                            i as int,
                                        ));
                                        assert(cursor_after(
                                            m_pre,
                                            w_pre,
                                            cap0,
                                            c_pre,
                                            i as int,
                                            self.spec_last_client(),
                                        ));
                                        assert(!w_pre[i as int]);
                                        assert(drain_step(
                                            cap0,
                                            m_pre,
                                            p_pre,
                                            c_pre,
                                            w_pre,
                                            o_pre,
                                            self.clients_model(),
                                            self.pending_requests@,
                                            self.spec_last_client(),
                                            writable@,
                                            out@,
                                        ));
                                        lemma_drained_extend(
                                            cap0,
                                            m0,
                                            p0,
                                            cur0,
                                            cw0,
                                            Seq::<Dispatch>::empty(),
                                            m_pre,
                                            p_pre,
                                            c_pre,
                                            w_pre,
                                            o_pre,
                                            self.clients_model(),
                                            self.pending_requests@,
                                            self.spec_last_client(),
                                            writable@,
                                            out@,
                                            iter as nat,
                                        );
                                        assert(drained(
                                            cap0,
                                            m0,
                                            p0,
                                            cur0,
                                            cw0,
                                            Seq::<Dispatch>::empty(),
                                            self.clients_model(),
                                            self.pending_requests@,
                                            self.spec_last_client(),
                                            writable@,
                                            out@,
                                            (iter + 1) as nat,
                                        ));
                                        let start = selection_start(m_pre.len() as int, c_pre);
                                        if o_pre.len() == 0 {
                                            if exists|jj: int|
                                                phase1_pick(m_pre, w_pre, cap0, start, jj) {
                                                assert(phase1_pick(
                                                    m_pre,
                                                    w_pre,
                                                    cap0,
                                                    start,
                                                    i as int,
                                                ));
                                                assert(false);
                                            }
                                            assert(self.spec_last_client() == m_pre.len());
                                            if p0.len() > 0 && (exists|jj: int|
                                                qualifies(m0, cw0, cap0, jj)) && iter >= 1 {
                                                let jj = choose|jj: int|
                                                    qualifies(m0, cw0, cap0, jj);
                                                assert(c_pre == m0.len());
                                                assert(start == 0);
                                                lemma_first_qualifying(m_pre, w_pre, cap0, jj);
                                                assert(false);
                                            }
                                        }
                                    }
                                },
                            }
                        },
                        None => {
                            self.pending_requests.push_front((handle, req));
                            proof {
                                assert(self.pending_requests@ =~= p_pre);
                                assert(old(self).spec_clients().len() == 0);
                                assert(p0.len() > 0);
                            }
                            break;
                        },
                    }
                },
            }
            iter = iter + 1;
        }
        out
    }

    /// Applies one framing event observed on channel `i`.
    ///
    /// A completed response is surfaced and counted; an error evicts the
    /// client and counts one bad response, its other in-flight requests
    /// lost; end-of-stream evicts it silently; otherwise the client just
    /// advances.  `Evicted` tells the driving task to drop the channel and
    /// engine of index `i` the same way the pool did (swap with the last).
    pub fn poll_response(&mut self, i: usize, ev: FramingEvent) -> (r: PoolPollOutcome<T>)
        requires
            old(self).wf(),
            i < old(self).spec_clients().len(),
            ev matches FramingEvent::Head(head, l) ==> (old(self).clients_model()[
                i as int
            ].len() > 0 ==> old(self).clients_model()[i as int][0].length is None),
            old(self).spec_bad() < i64::MAX,
        ensures
            final(self).wf(),
            final(self).spec_counter() == old(self).spec_counter(),
            final(self).spec_sent() == old(self).spec_sent(),
            final(self).spec_new_count() == old(self).spec_new_count(),
            final(self).spec_connecting() == old(self).spec_connecting(),
            final(self).spec_pending() == old(self).spec_pending(),
            final(self).spec_history() == old(self).spec_history(),
            final(self).spec_on_channel() == old(self).spec_on_channel(),
            final(self).spec_config() == old(self).spec_config(),
            final(self).spec_last_client() == old(self).spec_last_client(),
            final(self).spec_stats().current_stat == (ConnectionStatistics {
                response_ok_count: final(self).spec_stats().current_stat.response_ok_count,
                response_bad_count: final(self).spec_stats().current_stat.response_bad_count,
                ..old(self).spec_stats().current_stat
            }),
            r matches PoolPollOutcome::Response(h, resp) ==> h.spec_id() < old(
                self,
            ).spec_counter().spec_next_id(),
            ({
                let q = old(self).clients_model()[i as int];
                let kind = spec_step_kind(q, ev);
                &&& (r is Response <==> kind is Deliver)
                &&& (r is Evicted <==> (kind is Fail || kind is Close))
                &&& (r is NoResponse <==> kind is Pend)
            }),
            r matches PoolPollOutcome::Response(h, resp) ==> ({
                let q = old(self).clients_model()[i as int];
                &&& h == q[0].handle
                &&& resp.version == q[0].version
                &&& resp.status == q[0].status
                &&& resp.headers@ == q[0].headers
                &&& crate::buf::bytes_data(resp.body) == spec_delivered_body(q, ev)
                &&& final(self).clients_model() == old(self).clients_model().update(
                    i as int,
                    q.drop_first(),
                )
                &&& final(self).spec_ok() == old(self).spec_ok() + 1
                &&& final(self).spec_bad() == old(self).spec_bad()
                &&& final(self).spec_lost() == old(self).spec_lost()
                &&& final(self).spec_idle_failures() == old(self).spec_idle_failures()
                &&& final(self).spec_clients().len() == old(self).spec_clients().len()
            }),
            r matches PoolPollOutcome::Response(h, resp) ==> (ev matches FramingEvent::BodyChunk(
                c,
            ) ==> (old(self).clients_model()[i as int][0].length matches Some(
                BodyProgress::Counted { total, remaining },
            ) ==> (crate::buf::bytes_data(c).len() == remaining ==> crate::buf::bytes_data(
                resp.body,
            ).len() == total))),
            r is NoResponse ==> ({
                &&& final(self).clients_model() == old(self).clients_model().update(
                    i as int,
                    spec_step_queue(old(self).clients_model()[i as int], ev),
                )
                &&& final(self).spec_ok() == old(self).spec_ok()
                &&& final(self).spec_bad() == old(self).spec_bad()
                &&& final(self).spec_lost() == old(self).spec_lost()
                &&& final(self).spec_idle_failures() == old(self).spec_idle_failures()
                &&& final(self).spec_clients().len() == old(self).spec_clients().len()
            }),
            r is Evicted ==> ({
                let q = old(self).clients_model()[i as int];
                let kind = spec_step_kind(q, ev);
                &&& final(self).clients_model() == swap_removed(
                    old(self).clients_model(),
                    i as int,
                )
                &&& final(self).spec_clients().len() == old(self).spec_clients().len() - 1
                &&& final(self).spec_ok() == old(self).spec_ok()
                &&& (kind is Fail ==> final(self).spec_bad() == old(self).spec_bad() + 1
                    && final(self).spec_lost() == old(self).spec_lost() + (if q.len() > 0 {
                    q.len() - 1
                } else {
                    0
                }) && final(self).spec_idle_failures() == old(self).spec_idle_failures() + (
                if q.len() == 0 {
                    1int
                } else {
                    0int
                }))
                &&& (kind is Close ==> final(self).spec_bad() == old(self).spec_bad() && final(self).spec_lost() == old(self).spec_lost() + q.len() && final(self).spec_idle_failures() == old(self).spec_idle_failures())
            }),
    {
        let ghost m0 = self.clients_model();
        let ghost q0 = m0[i as int];
        let c = &mut self.clients[i];
        let res = c.poll_response(ev);
        proof {
            assert(self.clients_model() =~= m0.update(i as int, self.clients@[i as int]@));
            lemma_sum_lens_update(m0, i as int, spec_step_queue(q0, ev));
            lemma_sum_lens_nonneg(m0);
        }
        match res {
            PollOutcome::Delivered(h, resp) => {
                proof {
                    lemma_sum_lens_entry(m0, i as int);
                    assert(m0[i as int][0].handle.spec_id() < self.counter.spec_next_id());
                }
                self.stats.current_stat.response_ok_count = self.stats.current_stat.response_ok_count
                    + 1;
                PoolPollOutcome::Response(h, resp)
            },
            PollOutcome::Failed(_e) => {
                proof {
                    assert(self.clients_model() =~= m0);
                }
                let _evicted = self.clients.swap_remove(i);
                proof {
                    assert(self.clients_model() =~= swap_removed(m0, i as int));
                    lemma_sum_lens_swap_remove(m0, i as int);
                }
                self.stats.current_stat.response_bad_count = self.stats.current_stat.response_bad_count
                    + 1;
                proof {
                    if q0.len() > 0 {
                        self.lost@ = self.lost@ + (q0.len() - 1);
                    } else {
                        self.idle_failures@ = self.idle_failures@ + 1;
                    }
                }
                PoolPollOutcome::Evicted
            },
            PollOutcome::Closed => {
                proof {
                    assert(self.clients_model() =~= m0);
                }
                let _evicted = self.clients.swap_remove(i);
                proof {
                    assert(self.clients_model() =~= swap_removed(m0, i as int));
                    lemma_sum_lens_swap_remove(m0, i as int);
                    self.lost@ = self.lost@ + q0.len();
                }
                PoolPollOutcome::Evicted
            },
            PollOutcome::Pending => PoolPollOutcome::NoResponse,
        }
    }

    /// Removes a client whose engine reported it can take no further
    /// requests (the channel is closing).  Not an error: nothing is
    /// counted, but its in-flight requests are lost.
    pub fn remove_closed_client(&mut self, i: usize)
        requires
            old(self).wf(),
            i < old(self).spec_clients().len(),
        ensures
            final(self).wf(),
            final(self).clients_model() == swap_removed(old(self).clients_model(), i as int),
            final(self).spec_clients().len() == old(self).spec_clients().len() - 1,
            final(self).spec_lost() == old(self).spec_lost() + old(self).clients_model()[
                i as int
            ].len(),
            final(self).spec_counter() == old(self).spec_counter(),
            final(self).spec_pending() == old(self).spec_pending(),
            final(self).spec_connecting() == old(self).spec_connecting(),
            final(self).spec_config() == old(self).spec_config(),
            final(self).spec_last_client() == old(self).spec_last_client(),
            final(self).spec_stats() == old(self).spec_stats(),
            final(self).spec_idle_failures() == old(self).spec_idle_failures(),
    {
        let ghost m0 = self.clients_model();
        let _removed = self.clients.swap_remove(i);
        proof {
            assert(self.clients_model() =~= swap_removed(m0, i as int));
            lemma_sum_lens_swap_remove(m0, i as int);
            self.lost@ = self.lost@ + m0[i as int].len();
        }
    }
}

/// The connection bound demand-driven connecting uses: the maintenance
/// floor when one is set, otherwise effectively unlimited.
pub open spec fn maintain_or_unlimited(c: HttpClientPoolConfig) -> int {
    match c.maintain_size {
        Some(n) => n as int,
        None => usize::MAX as int,
    }
}

/// Accounting conservation: every request counted as sent is in a client
/// FIFO, pending, answered well or badly, or was lost to an eviction —
/// provided no read ever failed on an idle channel, since such a failure
/// counts a bad response without consuming a request.
pub proof fn lemma_accounting<T: Copy>(p: &HttpClientPool<T>)
    requires
        p.wf(),
        p.spec_idle_failures() == 0,
    ensures
        p.spec_sent() == sum_lens(p.clients_model()) + p.spec_pending().len() + p.spec_ok()
            + p.spec_bad() + p.spec_lost(),
{
}

/// Snapshot dedup: consecutive history entries never repeat the same
/// counters.
pub proof fn lemma_snapshot_dedup<T: Copy>(p: &HttpClientPool<T>, i: int)
    requires
        p.wf(),
        0 < i < p.spec_history().len(),
    ensures
        p.spec_history()[i].stat != p.spec_history()[i - 1].stat,
{
}

} // verus!
