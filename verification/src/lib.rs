//! A pipelined HTTP/1.1 client core: a per-connection client that matches
//! responses to requests in FIFO order, and a pool that multiplexes many
//! requests over a small set of such clients.
//!
//! The byte channel, the HTTP/1.1 framing engine and the clock are outside
//! collaborators.  The client and the pool are state machines: the driving
//! task observes the engine's readiness, hands the observation in as an
//! event, and carries the returned action (a wire write, a connection to
//! start) back out.  Every decision the two state machines make is verified.

use vstd::prelude::*;

pub mod buf;
pub mod client;
pub mod msg;
pub mod pool;
pub mod stat;

verus! {

/// Mints request identifiers.  Identifiers are unique per allocator; a pool
/// owns one allocator, so every handle a pool yields carries a distinct id.
pub struct HandleAllocator {
    next_id: u64,
    minted: Ghost<Seq<u64>>,
}

impl HandleAllocator {
    /// The id the next mint will return.
    pub closed spec fn spec_next_id(&self) -> u64 {
        self.next_id
    }

    /// All ids minted so far, in mint order.
    pub closed spec fn history(&self) -> Seq<u64> {
        self.minted@
    }

    pub open spec fn wf(&self) -> bool {
        &&& self.history().len() == self.spec_next_id()
        &&& forall|i: int| 0 <= i < self.history().len() ==> self.history()[i] == i
    }

    pub fn new() -> (r: Self)
        ensures
            r.wf(),
            r.spec_next_id() == 0,
            r.history() == Seq::<u64>::empty(),
    {
        HandleAllocator { next_id: 0, minted: Ghost(Seq::empty()) }
    }
}

/// A caller-facing identifier for an outstanding request.  It carries the
/// caller's metadata `T` until the response is surfaced.
#[derive(Copy, Clone, Debug)]
pub struct RequestHandle<T> {
    id: u64,
    data: T,
}

impl<T> RequestHandle<T> {
    pub closed spec fn spec_id(&self) -> u64 {
        self.id
    }

    pub closed spec fn spec_data(&self) -> T {
        self.data
    }

    /// Mints a handle with a fresh id, strictly increasing per allocator.
    pub fn unique(counter: &mut HandleAllocator, data: T) -> (h: Self)
        requires
            old(counter).wf(),
            old(counter).spec_next_id() < u64::MAX,
        ensures
            final(counter).wf(),
            h.spec_id() == old(counter).spec_next_id(),
            h.spec_data() == data,
            final(counter).spec_next_id() == old(counter).spec_next_id() + 1,
            final(counter).history() == old(counter).history().push(h.spec_id()),
    {
        let id = counter.next_id;
        counter.next_id = counter.next_id + 1;
        counter.minted = Ghost(counter.minted@.push(id));
        RequestHandle { id, data }
    }

    /// Surrenders the handle and returns the metadata it carried.
    pub fn into_data(self) -> (r: T)
        ensures
            r == self.spec_data(),
    {
        self.data
    }

    /// The id, exposed for observation; callers should treat it as opaque.
    pub fn id(&self) -> (r: u64)
        ensures
            r == self.spec_id(),
    {
        self.id
    }
}

/// Handle uniqueness: no two mints from one allocator yield the same id.
pub proof fn lemma_handle_uniqueness(a: &HandleAllocator, i: int, j: int)
    requires
        a.wf(),
        0 <= i < a.history().len(),
        0 <= j < a.history().len(),
        i != j,
    ensures
        a.history()[i] != a.history()[j],
{
}

} // verus!
