//! The mutex that admits one resizer at a time, and the guard that gives it back when a round
//! of resizing is left, whatever path leaves it.

use vstd::prelude::*;

verus! {

/// The mutex that admits one resizer at a time: 0 is idle, 1 is held, 2 is held with another
/// round requested.
pub struct ResizeMutex {
    state: u8,
}

/// What an attempt to enter the resize mutex came to.
#[derive(Clone, Copy, Debug, PartialEq, Eq, Structural)]
pub enum Entry {
    /// The mutex was idle and is now held by the caller.
    Acquired,
    /// Another resizer holds the mutex; it has been asked to run one more round.
    Requested,
    /// Another resizer holds the mutex and already knows that it has to run again.
    Pending,
}

impl ResizeMutex {
    /// The coordination byte.
    pub closed spec fn state(&self) -> u8 {
        self.state
    }

    /// The byte holds one of its three states.
    pub open spec fn wf(&self) -> bool {
        self.state() <= 2
    }

    /// An idle mutex.
    pub fn new() -> (mutex: Self)
        ensures
            mutex.state() == 0,
    {
        ResizeMutex { state: 0 }
    }

    /// Reads the coordination byte.
    pub fn load(&self) -> (state: u8)
        ensures
            state == self.state(),
    {
        self.state
    }

    /// Tries to enter: an idle mutex is taken, a held one is asked for another round, and one
    /// that has been asked already is left as it is.
    pub fn enter(&mut self) -> (entry: Entry)
        requires
            old(self).wf(),
        ensures
            final(self).wf(),
            old(self).state() == 0 ==> entry == Entry::Acquired && final(self).state() == 1,
            old(self).state() == 1 ==> entry == Entry::Requested && final(self).state() == 2,
            old(self).state() == 2 ==> entry == Entry::Pending && final(self).state() == 2,
    {
        if self.state == 2 {
            Entry::Pending
        } else if self.state == 1 {
            self.state = 2;
            Entry::Requested
        } else {
            self.state = 1;
            Entry::Acquired
        }
    }

    /// Steps the byte down by one and tells whether another round was requested meanwhile.
    pub fn leave(&mut self) -> (again: bool)
        requires
            1 <= old(self).state() <= 2,
        ensures
            final(self).state() == old(self).state() - 1,
            again == (old(self).state() == 2),
    {
        let previous: u8 = self.state;
        self.state = previous - 1;
        previous == 2
    }
}

/// Arms `scopeguard::guard` with the mutex and lets the guard fall out of scope at once. The
/// guard runs its closure exactly once when it is dropped, so the mutex has been left through
/// `ResizeMutex::leave` when this returns, and the result is what that call returned.
#[verifier::external_body]
pub(crate) fn leave_on_exit(mutex: &mut ResizeMutex) -> (again: bool)
    requires
        1 <= old(mutex).state() <= 2,
    ensures
        final(mutex).state() == old(mutex).state() - 1,
        again == (old(mutex).state() == 2),
{
    let mut again = false;
    {
        let _guard = scopeguard::guard((mutex, &mut again), |(mutex, again)| *again = mutex.leave());
    }
    again
}

} // verus!
