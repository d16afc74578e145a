//! The per-connection pipelined client.
//!
//! One client owns the FIFO of requests written on one channel and not yet
//! answered.  The channel and the HTTP/1.1 framing engine live with the
//! driving task: each time the driver polls the engine it hands the outcome
//! in as a [`FramingEvent`], and this state machine matches it against the
//! FIFO's front entry — the response being read always belongs to the oldest
//! outstanding request, so responses come back in submission order.

use vstd::prelude::*;

use crate::HandleAllocator;
use crate::RequestHandle;
use crate::buf::bytes_data;
use crate::buf::bytes_len;
use crate::buf::bytes_mut_data;
use crate::buf::bytes_mut_freeze;
use crate::buf::bytes_mut_new;
use crate::buf::bytes_mut_put;
use crate::msg::BodyProgress;
use crate::msg::DeclaredLength;
use crate::msg::Header;
use crate::msg::HttpVersion;
use crate::msg::Request;
use crate::msg::Response;
use crate::msg::ResponseHead;
use crate::msg::host_rewritten;
use std::collections::VecDeque;

verus! {

/// One observation of the framing engine, made by the driving task.
///
/// `Head` carries a parsed response head and the length its headers declare;
/// `BodyChunk` carries the next run of body bytes; `BodyEnd` says the engine
/// saw the body complete; `HeadEof` says the peer closed before a head; the
/// error variants say which engine call failed; `NoProgress` says nothing
/// was readable and no write could be flushed.
pub enum FramingEvent {
    NoProgress,
    FlushError,
    Head(ResponseHead, DeclaredLength),
    HeadError,
    HeadEof,
    BodyChunk(bytes::Bytes),
    BodyEnd,
    BodyError,
}

/// Why a poll failed: the channel itself erred, or the engine's report did
/// not fit the FIFO (no entry waiting, or a body before any head).  Either
/// way the caller is expected to evict this client.
#[derive(Copy, Clone, Debug, PartialEq, Eq, Structural)]
pub enum PollError {
    Channel,
    NoPendingEntry,
    NoDeclaredLength,
}

/// The client's answer to one framing event.
pub enum PollOutcome<T> {
    /// The front request's response is complete.
    Delivered(RequestHandle<T>, Response),
    /// An error; the client should be evicted.
    Failed(PollError),
    /// The peer closed the channel.
    Closed,
    /// No response is ready yet.
    Pending,
}

/// The ghost image of one FIFO entry: a request written on the wire whose
/// response is not yet complete.
pub struct EntryModel<T> {
    pub handle: RequestHandle<T>,
    pub version: HttpVersion,
    pub status: u16,
    pub headers: Seq<Header>,
    pub body: Seq<u8>,
    pub length: Option<BodyProgress>,
}

/// The entry a fresh submission appends: response fields at their defaults,
/// no body, no declared length yet.
pub open spec fn fresh_entry<T>(handle: RequestHandle<T>) -> EntryModel<T> {
    EntryModel {
        handle,
        version: HttpVersion::Http11,
        status: 200,
        headers: Seq::empty(),
        body: Seq::empty(),
        length: None,
    }
}

/// Every entry keeps its declared length consistent with the body read so
/// far: before the head arrives the body is empty; for a counted body, the
/// bytes read plus the bytes still owed equal the declared total.
pub open spec fn entry_wf<T>(e: EntryModel<T>) -> bool {
    &&& (e.length is None ==> e.body.len() == 0)
    &&& (e.length matches Some(BodyProgress::Counted { total, remaining })
        ==> remaining <= total && e.body.len() == total - remaining)
}

/// The handle ids of a queue, in FIFO order.
pub open spec fn ids<T>(q: Seq<EntryModel<T>>) -> Seq<u64> {
    q.map_values(|e: EntryModel<T>| e.handle.spec_id())
}

pub open spec fn progress_of(l: DeclaredLength) -> BodyProgress {
    match l {
        DeclaredLength::Length(n) => BodyProgress::Counted { total: n, remaining: n },
        DeclaredLength::Unbounded => BodyProgress::Unbounded,
    }
}

/// What one framing event decides: deliver the front response, fail, close,
/// or keep waiting.
pub enum StepKind {
    Deliver,
    Fail(PollError),
    Close,
    Pend,
}

/// The decision a client makes on queue `q` for event `ev`.
pub open spec fn spec_step_kind<T>(q: Seq<EntryModel<T>>, ev: FramingEvent) -> StepKind {
    match ev {
        FramingEvent::NoProgress => StepKind::Pend,
        FramingEvent::FlushError => StepKind::Fail(PollError::Channel),
        FramingEvent::HeadError => StepKind::Fail(PollError::Channel),
        FramingEvent::BodyError => StepKind::Fail(PollError::Channel),
        FramingEvent::HeadEof => StepKind::Close,
        FramingEvent::Head(head, l) => if q.len() == 0 {
            StepKind::Fail(PollError::NoPendingEntry)
        } else {
            StepKind::Pend
        },
        FramingEvent::BodyChunk(c) => if q.len() == 0 {
            StepKind::Fail(PollError::NoPendingEntry)
        } else {
            match q[0].length {
                None => StepKind::Fail(PollError::NoDeclaredLength),
                Some(BodyProgress::Unbounded) => StepKind::Pend,
                Some(BodyProgress::Counted { total, remaining }) => if bytes_data(c).len()
                    >= remaining {
                    StepKind::Deliver
                } else {
                    StepKind::Pend
                },
            }
        },
        FramingEvent::BodyEnd => if q.len() == 0 {
            StepKind::Fail(PollError::NoPendingEntry)
        } else {
            StepKind::Deliver
        },
    }
}

/// The queue a client holds after handling event `ev` on queue `q`.
pub open spec fn spec_step_queue<T>(q: Seq<EntryModel<T>>, ev: FramingEvent) -> Seq<
    EntryModel<T>,
> {
    match ev {
        FramingEvent::Head(head, l) => if q.len() == 0 {
            q
        } else {
            q.update(
                0,
                EntryModel {
                    handle: q[0].handle,
                    version: head.version,
                    status: head.status,
                    headers: head.headers@,
                    body: q[0].body,
                    length: Some(progress_of(l)),
                },
            )
        },
        FramingEvent::BodyChunk(c) => if q.len() == 0 {
            q
        } else {
            match q[0].length {
                None => q,
                Some(BodyProgress::Unbounded) => q.update(
                    0,
                    EntryModel {
                        handle: q[0].handle,
                        version: q[0].version,
                        status: q[0].status,
                        headers: q[0].headers,
                        body: q[0].body + bytes_data(c),
                        length: q[0].length,
                    },
                ),
                Some(BodyProgress::Counted { total, remaining }) => if bytes_data(c).len()
                    >= remaining {
                    q.drop_first()
                } else {
                    q.update(
                        0,
                        EntryModel {
                            handle: q[0].handle,
                            version: q[0].version,
                            status: q[0].status,
                            headers: q[0].headers,
                            body: q[0].body + bytes_data(c),
                            length: Some(
                                BodyProgress::Counted {
                                    total,
                                    remaining: (remaining - bytes_data(c).len()) as u64,
                                },
                            ),
                        },
                    )
                },
            }
        },
        FramingEvent::BodyEnd => if q.len() == 0 {
            q
        } else {
            q.drop_first()
        },
        _ => q,
    }
}

/// The body a delivery surfaces: everything accumulated for the front entry,
/// plus the closing chunk if the event carried one.
pub open spec fn spec_delivered_body<T>(q: Seq<EntryModel<T>>, ev: FramingEvent) -> Seq<u8> {
    match ev {
        FramingEvent::BodyChunk(c) => q[0].body + bytes_data(c),
        _ => q[0].body,
    }
}

struct Receiving<T> {
    handle: RequestHandle<T>,
    version: HttpVersion,
    status: u16,
    headers: Vec<Header>,
    body: bytes::BytesMut,
    length: Option<BodyProgress>,
}

impl<T> Receiving<T> {
    spec fn model(self) -> EntryModel<T> {
        EntryModel {
            handle: self.handle,
            version: self.version,
            status: self.status,
            headers: self.headers@,
            body: bytes_mut_data(self.body),
            length: self.length,
        }
    }

    fn new(handle: RequestHandle<T>) -> (r: Self)
        ensures
            r.model() == fresh_entry(handle),
    {
        let r = Receiving {
            handle,
            version: HttpVersion::Http11,
            status: 200,
            headers: Vec::new(),
            body: bytes_mut_new(),
            length: None,
        };
        proof {
            assert(r.model().headers =~= fresh_entry(handle).headers);
            assert(r.model().body =~= fresh_entry(handle).body);
        }
        r
    }
}

/// A pipelined client: the FIFO of pending receives for one channel.
/// Its view is the sequence of entry models, front first.
pub struct HttpClient<T> {
    queue: VecDeque<Receiving<T>>,
    submitted: Ghost<Seq<u64>>,
    delivered: Ghost<Seq<u64>>,
}

impl<T> View for HttpClient<T> {
    type V = Seq<EntryModel<T>>;

    closed spec fn view(&self) -> Seq<EntryModel<T>> {
        self.queue@.map_values(|r: Receiving<T>| r.model())
    }
}

impl<T: Copy> HttpClient<T> {
    /// The ids of every request submitted on this client, in order.
    pub closed spec fn submitted_ids(&self) -> Seq<u64> {
        self.submitted@
    }

    /// The ids of every response delivered by this client, in order.
    pub closed spec fn delivered_ids(&self) -> Seq<u64> {
        self.delivered@
    }

    /// Deliveries are exactly the submissions not still pending, in order,
    /// and every pending entry is internally consistent.
    pub open spec fn wf(&self) -> bool {
        &&& self.submitted_ids() == self.delivered_ids() + ids(self@)
        &&& forall|i: int| 0 <= i < self@.len() ==> entry_wf(#[trigger] self@[i])
    }

    /// A client for a freshly established channel: nothing outstanding.
    pub fn new() -> (r: Self)
        ensures
            r.wf(),
            r@ == Seq::<EntryModel<T>>::empty(),
            r.submitted_ids() == Seq::<u64>::empty(),
            r.delivered_ids() == Seq::<u64>::empty(),
    {
        let r = HttpClient {
            queue: VecDeque::new(),
            submitted: Ghost(Seq::empty()),
            delivered: Ghost(Seq::empty()),
        };
        proof {
            assert(r@ =~= Seq::<EntryModel<T>>::empty());
            assert(r.submitted_ids() =~= r.delivered_ids() + ids(r@));
        }
        r
    }

    /// How many requests are written but not yet answered.
    pub fn queue_len(&self) -> (r: usize)
        ensures
            r == self@.len(),
    {
        self.queue.len()
    }

    /// Writes `req` on the wire for an already minted handle.  If the engine
    /// can take a head (`can_write`), the `host` header is rewritten from the
    /// URI's authority, an entry joins the FIFO's back, and the wire form is
    /// returned for the driver to serialise; otherwise the request is handed
    /// back so the caller may re-route it.
    pub fn request_with_handle(
        &mut self,
        req: Request,
        handle: RequestHandle<T>,
        can_write: bool,
    ) -> (r: Result<Request, Request>)
        requires
            old(self).wf(),
            req.wf(),
        ensures
            final(self).wf(),
            final(self).delivered_ids() == old(self).delivered_ids(),
            r is Ok <==> can_write,
            !can_write ==> r == Result::<Request, Request>::Err(req) && final(self)@ == old(
                self,
            )@ && final(self).submitted_ids() == old(self).submitted_ids(),
            can_write ==> ({
                &&& r matches Result::Ok(wire)
                &&& host_rewritten(wire, req)
                &&& final(self)@ == old(self)@.push(fresh_entry(handle))
                &&& final(self).submitted_ids() == old(self).submitted_ids().push(
                    handle.spec_id(),
                )
            }),
    {
        if can_write {
            let wire = req.with_host_header();
            let entry = Receiving::new(handle);
            self.queue.push_back(entry);
            self.submitted = Ghost(self.submitted@.push(handle.spec_id()));
            proof {
                assert(self@ =~= old(self)@.push(fresh_entry(handle)));
                assert(ids(self@) =~= ids(old(self)@).push(handle.spec_id()));
                assert(self.submitted_ids() =~= self.delivered_ids() + ids(self@));
            }
            Ok(wire)
        } else {
            Err(req)
        }
    }

    /// Mints a handle carrying `data` and submits `req` on this client, as
    /// [`Self::request_with_handle`] does.  The handle is minted only when
    /// the engine can take the request.
    pub fn request(
        &mut self,
        req: Request,
        data: T,
        can_write: bool,
        counter: &mut HandleAllocator,
    ) -> (r: Result<(RequestHandle<T>, Request), Request>)
        requires
            old(self).wf(),
            req.wf(),
            old(counter).wf(),
            old(counter).spec_next_id() < u64::MAX,
        ensures
            final(self).wf(),
            final(counter).wf(),
            final(self).delivered_ids() == old(self).delivered_ids(),
            r is Ok <==> can_write,
            !can_write ==> ({
                &&& r matches Result::Err(back)
                &&& back == req
                &&& final(self)@ == old(self)@
                &&& final(self).submitted_ids() == old(self).submitted_ids()
                &&& final(counter).spec_next_id() == old(counter).spec_next_id()
                &&& final(counter).history() == old(counter).history()
            }),
            can_write ==> ({
                &&& r matches Result::Ok((h, wire))
                &&& h.spec_id() == old(counter).spec_next_id()
                &&& h.spec_data() == data
                &&& host_rewritten(wire, req)
                &&& final(self)@ == old(self)@.push(fresh_entry(h))
                &&& final(self).submitted_ids() == old(self).submitted_ids().push(h.spec_id())
                &&& final(counter).spec_next_id() == old(counter).spec_next_id() + 1
                &&& final(counter).history() == old(counter).history().push(h.spec_id())
            }),
    {
        if can_write {
            let handle = RequestHandle::unique(counter, data);
            match self.request_with_handle(req, handle, true) {
                Ok(wire) => Ok((handle, wire)),
                Err(back) => {
                    proof {
                        assert(false);
                    }
                    Err(back)
                },
            }
        } else {
            Err(req)
        }
    }

    /// Applies one framing event.
    ///
    /// The new queue is exactly [`spec_step_queue`] of the old one, and the
    /// outcome's kind is exactly [`spec_step_kind`]: a head binds to the
    /// front entry; a counted chunk grows the front body and shrinks what is
    /// owed, delivering the front entry when nothing is; a body end delivers
    /// the front entry as accumulated; errors and end-of-stream change
    /// nothing and tell the caller to evict or drop the client.  Heads are
    /// only handed in for a front entry that has none yet, which is how the
    /// engine's read predicates alternate.
    pub fn poll_response(&mut self, ev: FramingEvent) -> (r: PollOutcome<T>)
        requires
            old(self).wf(),
            ev matches FramingEvent::Head(head, l) ==> (old(self)@.len() > 0 ==> old(
                self,
            )@[0].length is None),
        ensures
            final(self).wf(),
            final(self)@ == spec_step_queue(old(self)@, ev),
            final(self).submitted_ids() == old(self).submitted_ids(),
            r is Delivered <==> spec_step_kind(old(self)@, ev) is Deliver,
            r is Closed <==> spec_step_kind(old(self)@, ev) is Close,
            r is Pending <==> spec_step_kind(old(self)@, ev) is Pend,
            spec_step_kind(old(self)@, ev) matches StepKind::Fail(e) ==> r
                == PollOutcome::<T>::Failed(e),
            r matches PollOutcome::Delivered(h, resp) ==> {
                &&& h == old(self)@[0].handle
                &&& resp.version == old(self)@[0].version
                &&& resp.status == old(self)@[0].status
                &&& resp.headers@ == old(self)@[0].headers
                &&& bytes_data(resp.body) == spec_delivered_body(old(self)@, ev)
                &&& final(self).delivered_ids() == old(self).delivered_ids().push(h.spec_id())
            },
            !(r is Delivered) ==> final(self).delivered_ids() == old(self).delivered_ids(),
            r matches PollOutcome::Delivered(h, resp) ==> (ev matches FramingEvent::BodyChunk(c)
                ==> (old(self)@[0].length matches Some(BodyProgress::Counted { total, remaining })
                ==> (bytes_data(c).len() == remaining ==> bytes_data(resp.body).len() == total))),
    {
        match ev {
            FramingEvent::NoProgress => PollOutcome::Pending,
            FramingEvent::FlushError => PollOutcome::Failed(PollError::Channel),
            FramingEvent::HeadError => PollOutcome::Failed(PollError::Channel),
            FramingEvent::BodyError => PollOutcome::Failed(PollError::Channel),
            FramingEvent::HeadEof => PollOutcome::Closed,
            FramingEvent::Head(head, l) => {
                match self.queue.pop_front() {
                    None => {
                        proof {
                            assert(self@ =~= old(self)@);
                        }
                        PollOutcome::Failed(PollError::NoPendingEntry)
                    },
                    Some(front) => {
                        let mut front = front;
                        let progress = match l {
                            DeclaredLength::Length(n) => BodyProgress::Counted {
                                total: n,
                                remaining: n,
                            },
                            DeclaredLength::Unbounded => BodyProgress::Unbounded,
                        };
                        front.version = head.version;
                        front.status = head.status;
                        front.headers = head.headers;
                        front.length = Some(progress);
                        self.queue.push_front(front);
                        proof {
                            assert(self@ =~= spec_step_queue(old(self)@, ev));
                            assert(ids(self@) =~= ids(old(self)@));
                            assert(self.submitted_ids() =~= self.delivered_ids() + ids(self@));
                        }
                        PollOutcome::Pending
                    },
                }
            },
            FramingEvent::BodyChunk(chunk) => {
                match self.queue.pop_front() {
                    None => {
                        proof {
                            assert(self@ =~= old(self)@);
                        }
                        PollOutcome::Failed(PollError::NoPendingEntry)
                    },
                    Some(front) => {
                        let mut front = front;
                        match front.length {
                            None => {
                                self.queue.push_front(front);
                                proof {
                                    assert(self@ =~= old(self)@);
                                }
                                PollOutcome::Failed(PollError::NoDeclaredLength)
                            },
                            Some(BodyProgress::Unbounded) => {
                                bytes_mut_put(&mut front.body, &chunk);
                                self.queue.push_front(front);
                                proof {
                                    assert(self@ =~= spec_step_queue(old(self)@, ev));
                                    assert(ids(self@) =~= ids(old(self)@));
                                    assert(self.submitted_ids() =~= self.delivered_ids() + ids(
                                        self@,
                                    ));
                                }
                                PollOutcome::Pending
                            },
                            Some(BodyProgress::Counted { total, remaining }) => {
                                let clen = bytes_len(&chunk);
                                bytes_mut_put(&mut front.body, &chunk);
                                if clen as u64 >= remaining {
                                    self.delivered = Ghost(
                                        self.delivered@.push(front.handle.spec_id()),
                                    );
                                    let resp = Response {
                                        version: front.version,
                                        status: front.status,
                                        headers: front.headers,
                                        body: bytes_mut_freeze(front.body),
                                    };
                                    proof {
                                        assert(self@ =~= old(self)@.drop_first());
                                        assert(ids(self@) =~= ids(old(self)@).drop_first());
                                        assert(self.submitted_ids() =~= self.delivered_ids() + ids(
                                            self@,
                                        ));
                                    }
                                    PollOutcome::Delivered(front.handle, resp)
                                } else {
                                    front.length = Some(
                                        BodyProgress::Counted {
                                            total,
                                            remaining: remaining - clen as u64,
                                        },
                                    );
                                    self.queue.push_front(front);
                                    proof {
                                        assert(self@ =~= spec_step_queue(old(self)@, ev));
                                        assert(ids(self@) =~= ids(old(self)@));
                                        assert(self.submitted_ids() =~= self.delivered_ids() + ids(
                                            self@,
                                        ));
                                    }
                                    PollOutcome::Pending
                                }
                            },
                        }
                    },
                }
            },
            FramingEvent::BodyEnd => {
                match self.queue.pop_front() {
                    None => {
                        proof {
                            assert(self@ =~= old(self)@);
                        }
                        PollOutcome::Failed(PollError::NoPendingEntry)
                    },
                    Some(front) => {
                        self.delivered = Ghost(self.delivered@.push(front.handle.spec_id()));
                        let resp = Response {
                            version: front.version,
                            status: front.status,
                            headers: front.headers,
                            body: bytes_mut_freeze(front.body),
                        };
                        proof {
                            assert(self@ =~= old(self)@.drop_first());
                            assert(ids(self@) =~= ids(old(self)@).drop_first());
                            assert(self.submitted_ids() =~= self.delivered_ids() + ids(self@));
                        }
                        PollOutcome::Delivered(front.handle, resp)
                    },
                }
            },
        }
    }
}

/// Order preservation: what a client has delivered is exactly the prefix of
/// what was submitted on it, in submission order.
pub proof fn lemma_order_preservation<T: Copy>(c: &HttpClient<T>)
    requires
        c.wf(),
    ensures
        c.delivered_ids() == c.submitted_ids().take(c.delivered_ids().len() as int),
        forall|k: int|
            0 <= k < c.delivered_ids().len() ==> c.delivered_ids()[k] == c.submitted_ids()[k],
{
    assert(c.delivered_ids() =~= c.submitted_ids().take(c.delivered_ids().len() as int));
}

/// An idle poll is a no-op: with no framing progress the queue is unchanged
/// and the outcome is pending.
pub proof fn lemma_idle_poll<T>(q: Seq<EntryModel<T>>)
    ensures
        spec_step_queue(q, FramingEvent::NoProgress) == q,
        spec_step_kind(q, FramingEvent::NoProgress) is Pend,
{
}

} // verus!
