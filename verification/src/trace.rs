//! Sequences of calls, and what holds of every one of them.

use crate::state::{
    lemma_alloc_bytes_wf, lemma_alloc_pages_wf, lemma_donate_wf, AllocError, State,
};
use vstd::prelude::*;

verus! {

/// One call of an operation of the allocator, with its arguments.
pub enum Call {
    /// `init(start, size)`.
    Init { start: int, size: int },
    /// `add_memory(start, size)`.
    Donate { start: int, size: int },
    /// `alloc_bytes(size, align)`.
    AllocBytes { size: int, align: int },
    /// `dealloc(pos, size, align)`.
    Dealloc { pos: int, size: int, align: int },
    /// `alloc_pages(count, align)`.
    AllocPages { count: int, align: int },
    /// `dealloc_pages(pos, count)`.
    DeallocPages { pos: int, count: int },
}

/// What a call returned.
#[derive(PartialEq, Eq, Structural)]
pub enum Reply {
    /// Nothing, or `Ok(())`.
    Done,
    /// The address granted.
    Address(int),
    /// The error.
    Refused(AllocError),
}

impl Call {
    /// Whether the call meets the precondition of its operation in state `s`.
    pub open spec fn allowed(self, s: State, page: int) -> bool {
        match self {
            Call::Init { start, size } => {
                &&& s.regions.len() == 0
                &&& 0 <= start
                &&& 0 < size
                &&& page <= start + size <= usize::MAX
            },
            Call::Donate { start, size } => {
                &&& 0 <= start
                &&& 0 < size
                &&& page <= start + size <= usize::MAX
            },
            Call::AllocBytes { size, align } => 0 <= size && 0 < align,
            Call::AllocPages { count, align } => 0 <= count,
            Call::Dealloc { .. } => true,
            Call::DeallocPages { .. } => true,
        }
    }
}

/// The state that call `c` leaves when made in state `s`, and what it returns.
pub open spec fn step(s: State, c: Call, page: int) -> (State, Reply) {
    match c {
        Call::Init { start, size } => (s.donate(start, size, page), Reply::Done),
        Call::Donate { start, size } => match s.add_memory(start, size, page).1 {
            Ok(_) => (s.add_memory(start, size, page).0, Reply::Done),
            Err(e) => (s.add_memory(start, size, page).0, Reply::Refused(e)),
        },
        Call::AllocBytes { size, align } => match s.alloc_bytes(size, align).1 {
            Some(a) => (s.alloc_bytes(size, align).0, Reply::Address(a)),
            None => (s.alloc_bytes(size, align).0, Reply::Refused(AllocError::NoMemory)),
        },
        Call::AllocPages { count, align } => match s.alloc_pages(count, align, page).1 {
            Ok(a) => (s.alloc_pages(count, align, page).0, Reply::Address(a)),
            Err(e) => (s.alloc_pages(count, align, page).0, Reply::Refused(e)),
        },
        Call::Dealloc { .. } => (s, Reply::Done),
        Call::DeallocPages { .. } => (s, Reply::Done),
    }
}

/// The state after all of `calls` were made in order, starting in state `s`.
pub open spec fn run(s: State, calls: Seq<Call>, page: int) -> State
    decreases calls.len(),
{
    if calls.len() == 0 {
        s
    } else {
        step(run(s, calls.drop_last(), page), calls.last(), page).0
    }
}

/// The state in which call `k` of `calls` is made.
pub open spec fn state_at(s: State, calls: Seq<Call>, k: int, page: int) -> State {
    run(s, calls.take(k), page)
}

/// What call `k` of `calls` returns.
pub open spec fn reply_at(s: State, calls: Seq<Call>, k: int, page: int) -> Reply {
    step(state_at(s, calls, k, page), calls[k], page).1
}

/// Every call of the sequence meets the precondition of its operation.
pub open spec fn admissible(s: State, calls: Seq<Call>, page: int) -> bool {
    forall|k: int|
        0 <= k < calls.len() ==> (#[trigger] calls[k]).allowed(state_at(s, calls, k, page), page)
}

/// The state after call `k` is the state before call `k + 1`.
pub proof fn lemma_state_at_next(s: State, calls: Seq<Call>, k: int, page: int)
    requires
        0 <= k < calls.len(),
    ensures
        state_at(s, calls, k + 1, page) == step(state_at(s, calls, k, page), calls[k], page).0,
        state_at(s, calls, 0, page) == s,
        state_at(s, calls, calls.len() as int, page) == run(s, calls, page),
{
    assert(calls.take(k + 1).drop_last() =~= calls.take(k));
    assert(calls.take(calls.len() as int) =~= calls);
}

/// A call that meets its precondition keeps the state well formed.
pub proof fn lemma_step_wf(s: State, c: Call, page: int)
    requires
        s.wf(page),
        c.allowed(s, page),
    ensures
        step(s, c, page).0.wf(page),
{
    match c {
        Call::Init { start, size } => {
            lemma_donate_wf(s, start, size, page);
        },
        Call::Donate { start, size } => {
            if !s.overlaps(start, size) {
                lemma_donate_wf(s, start, size, page);
            }
        },
        Call::AllocBytes { size, align } => {
            lemma_alloc_bytes_wf(s, size, align, page);
        },
        Call::AllocPages { count, align } => {
            lemma_alloc_pages_wf(s, count, align, page);
        },
        Call::Dealloc { .. } => {},
        Call::DeallocPages { .. } => {},
    }
}

/// The invariant holds before every call of an admissible sequence, and after
/// the last.
pub proof fn lemma_run_wf(s: State, calls: Seq<Call>, k: int, page: int)
    requires
        s.wf(page),
        admissible(s, calls, page),
        0 <= k <= calls.len(),
    ensures
        state_at(s, calls, k, page).wf(page),
    decreases k,
{
    if k > 0 {
        lemma_run_wf(s, calls, k - 1, page);
        lemma_state_at_next(s, calls, k - 1, page);
        lemma_step_wf(state_at(s, calls, k - 1, page), calls[k - 1], page);
    } else {
        assert(calls.take(0) =~= Seq::<Call>::empty());
    }
}

} // verus!
