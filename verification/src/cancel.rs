//! The revision clock and the cancellation signal derived from it.

use vstd::prelude::*;

verus! {

/// The signal that a write has overtaken a computation. It carries no
/// payload: the only reaction is to run the computation again.
#[derive(Clone, Copy, Debug, PartialEq, Eq, Structural, Hash)]
pub struct Canceled;

/// A value, or the signal that the computation was overtaken by a write.
pub type Cancelable<T> = Result<T, Canceled>;

/// Turns the answer to "was this computation overtaken by a write?" into
/// the result that a query hands on: `Canceled` if it was, nothing if not.
pub fn check_canceled(canceled: bool) -> (res: Cancelable<()>)
    ensures
        res is Err <==> canceled,
{
    if canceled {
        Err(Canceled)
    } else {
        Ok(())
    }
}

/// States whether a computation that started at revision `started_at`
/// is stale once the clock shows `current`.
pub open spec fn is_stale(current: u64, started_at: u64) -> bool {
    current > started_at
}

/// Counts the writes to the inputs. Every write moves the clock forward by
/// one, and a computation is canceled as soon as the clock has moved past
/// the revision at which the computation started.
#[derive(Clone, Copy, Debug, PartialEq, Eq, Structural, Hash)]
pub struct RevisionClock {
    revision: u64,
}

impl View for RevisionClock {
    type V = u64;

    closed spec fn view(&self) -> u64 {
        self.revision
    }
}

impl RevisionClock {
    /// A clock that has seen no write.
    pub fn new() -> (clock: Self)
        ensures
            clock@ == 0,
    {
        RevisionClock { revision: 0 }
    }

    /// The revision that the clock shows now.
    pub fn current_revision(&self) -> (revision: u64)
        ensures
            revision == self@,
    {
        self.revision
    }

    /// Records one write.
    pub fn note_write(&mut self)
        requires
            old(self)@ < u64::MAX,
        ensures
            final(self)@ == old(self)@ + 1,
    {
        self.revision = self.revision + 1;
    }

    /// Tells whether the clock has moved past `started_at`.
    pub fn is_canceled(&self, started_at: u64) -> (canceled: bool)
        ensures
            canceled == is_stale(self@, started_at),
    {
        self.revision > started_at
    }

    /// Fails with `Canceled` exactly when the clock has moved past
    /// `started_at`.
    pub fn check_canceled(&self, started_at: u64) -> (res: Cancelable<()>)
        ensures
            res is Err <==> is_stale(self@, started_at),
    {
        check_canceled(self.is_canceled(started_at))
    }
}

/// A computation is not stale at the revision at which it started.
pub proof fn lemma_fresh_at_start(started_at: u64)
    ensures
        !is_stale(started_at, started_at),
{
}

/// One write makes every computation stale that started at or before the
/// revision that the clock showed before the write.
pub proof fn lemma_write_cancels(before: RevisionClock, after: RevisionClock, started_at: u64)
    requires
        after@ == before@ + 1,
        started_at <= before@,
    ensures
        is_stale(after@, started_at),
{
}

/// A computation that is stale stays stale, however far the clock moves on:
/// every later check sees the cancellation.
pub proof fn lemma_stale_for_good(earlier: RevisionClock, later: RevisionClock, started_at: u64)
    requires
        earlier@ <= later@,
        is_stale(earlier@, started_at),
    ensures
        is_stale(later@, started_at),
{
}

} // verus!
