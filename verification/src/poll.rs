//! Waiting for streams, and what came of it.

use vstd::prelude::*;

verus! {

/// The outcome of a poll: there is a result, or whoever waits is woken later.
#[derive(Debug, PartialEq, Eq)]
pub enum Poll<T> {
    Ready(T),
    Pending,
}

impl<T> Poll<T> {
    pub fn is_ready(&self) -> (ready: bool)
        ensures
            ready == (*self is Ready),
    {
        match self {
            Poll::Ready(_) => true,
            Poll::Pending => false,
        }
    }
}

/// Why an attempt to read or write at once did not succeed.
#[derive(Debug, PartialEq, Eq)]
pub struct Refusal<E> {
    /// The stream was not ready after all: it is to be polled again.
    pub would_block: bool,
    pub error: E,
}

/// The read failed or came to the end of the stream.
pub open spec fn ended<E>(outcome: Result<usize, E>) -> bool {
    outcome is Err || outcome->Ok_0 == 0
}

/// A read of any positive number of bytes is not the end. A read of none, and every error,
/// are.
pub proof fn law_only_nothing_and_errors_end<E>(n: usize, error: E)
    ensures
        ended(Ok::<usize, E>(n)) <==> n == 0,
        ended(Err::<usize, E>(error)),
{
}

/// What the next race is run among.
#[derive(Debug, Clone, Copy, PartialEq, Eq, Structural)]
pub enum Contest {
    /// The listener alone: a race cannot be run among none.
    Listener,
    /// The listener, all readers and all writers.
    Everyone,
}

} // verus!
