//! A cell that keeps its exclusive lock in one bit of a metadata word, with the queue of parked
//! waiters in a word of its own.
//!
//! The cell fills one cache line. The lock bit is bit 32 of the metadata; the bits below it are
//! left to the owner of the cell and are never touched by locking.

use crate::wait_queue::WaitFrames;
use vstd::prelude::*;

verus! {

/// The lock bit of the metadata word.
pub const XLOCK: u64 = 0x1_0000_0000;

/// Whether a metadata word has its lock bit set.
pub open spec fn xlocked(metadata: u64) -> bool {
    metadata & XLOCK == XLOCK
}

/// Tells whether the lock bit of `metadata` is set.
pub fn is_xlocked(metadata: u64) -> (held: bool)
    ensures
        held == xlocked(metadata),
{
    metadata & XLOCK == XLOCK
}

/// `metadata` with the lock bit set.
pub fn with_xlock(metadata: u64) -> (next: u64)
    ensures
        next == metadata | XLOCK,
        xlocked(next),
        next & !XLOCK == metadata & !XLOCK,
        xlocked(metadata) ==> next == metadata,
{
    assert((metadata | 0x1_0000_0000) & 0x1_0000_0000 == 0x1_0000_0000) by (bit_vector);
    assert((metadata | 0x1_0000_0000) & !0x1_0000_0000u64 == metadata & !0x1_0000_0000u64) by (bit_vector);
    assert(metadata & 0x1_0000_0000 == 0x1_0000_0000 ==> (metadata | 0x1_0000_0000) == metadata) by (bit_vector);
    metadata | XLOCK
}

/// `metadata` with the lock bit cleared.
pub fn without_xlock(metadata: u64) -> (next: u64)
    ensures
        next == metadata & !XLOCK,
        !xlocked(next),
        next & !XLOCK == metadata & !XLOCK,
        !xlocked(metadata) ==> next == metadata,
{
    assert((metadata & !0x1_0000_0000u64) & 0x1_0000_0000 != 0x1_0000_0000) by (bit_vector);
    assert((metadata & !0x1_0000_0000u64) & !0x1_0000_0000u64 == metadata & !0x1_0000_0000u64) by (bit_vector);
    assert(metadata & 0x1_0000_0000 != 0x1_0000_0000 ==> (metadata & !0x1_0000_0000u64) == metadata) by (bit_vector);
    metadata & !XLOCK
}

/// A cell of the table whose entries move.
pub struct Cell {
    metadata: u64,
    wait_queue: usize,
    link: Option<u32>,
    partial_hash_array: [u32; 10],
}

impl Cell {
    /// The metadata word.
    pub closed spec fn spec_metadata(&self) -> u64 {
        self.metadata
    }

    /// The handle of the newest parked waiter, 0 if nobody waits.
    pub closed spec fn waiters(&self) -> usize {
        self.wait_queue
    }

    /// The index of the cell that this cell overflows into, if there is one.
    pub closed spec fn spec_link(&self) -> Option<u32> {
        self.link
    }

    /// The partial hashes of the entries.
    pub closed spec fn partial_hashes(&self) -> Seq<u32> {
        self.partial_hash_array@
    }

    /// Whether the cell is locked.
    pub open spec fn spec_locked(&self) -> bool {
        xlocked(self.spec_metadata())
    }

    /// Whether `other` is this cell but for the lock bit and the queue of waiters.
    pub open spec fn same_contents(&self, other: &Cell) -> bool {
        &&& other.spec_link() == self.spec_link()
        &&& other.partial_hashes() == self.partial_hashes()
        &&& other.spec_metadata() & !XLOCK == self.spec_metadata() & !XLOCK
    }

    /// An unlocked cell that holds nothing.
    pub fn new() -> (cell: Cell)
        ensures
            cell.spec_metadata() == 0,
            cell.waiters() == 0,
            cell.spec_link() is None,
            cell.partial_hashes() == Seq::new(10, |i: int| 0u32),
    {
        let cell = Cell { metadata: 0, wait_queue: 0, link: None, partial_hash_array: [0, 0, 0, 0, 0, 0, 0, 0, 0, 0] };
        proof {
            assert(cell.partial_hashes() =~= Seq::new(10, |i: int| 0u32));
        }
        cell
    }

    /// Reads the metadata word.
    pub fn metadata(&self) -> (metadata: u64)
        ensures
            metadata == self.spec_metadata(),
    {
        self.metadata
    }

    /// Returns true if the cell is locked.
    pub fn locked(&self) -> (held: bool)
        ensures
            held == self.spec_locked(),
    {
        is_xlocked(self.metadata)
    }
}

/// The exclusive lock of a cell, held.
pub struct ExclusiveLocker<'a> {
    /// The locked cell.
    pub cell: &'a mut Cell,
    /// The metadata of the cell as it was when the lock was taken, lock bit included.
    pub metadata: u64,
}

impl<'a> ExclusiveLocker<'a> {
    /// Takes the lock of the cell. If the lock is held, a waiter is parked on the cell as `wait`
    /// does it, and the handle of its frame comes back: the caller may try again once the frame
    /// has been signalled.
    pub fn new(cell: &'a mut Cell, frames: &mut WaitFrames) -> (outcome: Result<ExclusiveLocker<'a>, usize>)
        requires
            old(frames).wf(),
            old(frames).valid(old(cell).waiters()),
            old(frames).len() < usize::MAX,
        ensures
            outcome is Ok <==> !old(cell).spec_locked(),
            final(frames).wf(),
            match outcome {
                Ok(locker) => {
                    &&& locker.cell.spec_metadata() == old(cell).spec_metadata() | XLOCK
                    &&& locker.metadata == locker.cell.spec_metadata()
                    &&& locker.cell.waiters() == old(cell).waiters()
                    &&& old(cell).same_contents(locker.cell)
                    &&& *final(cell) == *final(locker.cell)
                    &&& *final(frames) == *old(frames)
                },
                Err(handle) => {
                    &&& handle == old(frames).len() + 1
                    &&& final(frames).len() == handle
                    &&& final(cell).spec_metadata() == old(cell).spec_metadata()
                    &&& old(cell).same_contents(final(cell))
                    &&& final(cell).waiters() == handle
                    &&& !final(frames).frame(handle).signalled()
                    &&& final(frames).chain(handle) == seq![handle].add(old(frames).chain(old(cell).waiters()))
                    &&& forall|h: usize|
                        0 < h <= old(frames).len() ==> (#[trigger] final(frames).frame(h)).signalled() == old(
                            frames,
                        ).frame(h).signalled()
                },
            },
    {
        let current: u64 = cell.metadata;
        if !is_xlocked(current) {
            let locked: u64 = with_xlock(current);
            cell.metadata = locked;
            return Ok(ExclusiveLocker { cell, metadata: locked });
        }
        // locked: wait for the lock to be released
        let was_locked: bool = ExclusiveLocker::wait(cell, frames);
        proof {
            assert(!was_locked);
        }
        Err(cell.wait_queue)
    }

    /// Parks a waiter on the cell and tries once more to take the lock. If that succeeds, every
    /// parked waiter is woken, the new one among them, and the lock stays taken. Returns whether
    /// the lock has been taken.
    pub fn wait(cell: &mut Cell, frames: &mut WaitFrames) -> (locked: bool)
        requires
            old(frames).wf(),
            old(frames).valid(old(cell).waiters()),
            old(frames).len() < usize::MAX,
        ensures
            locked <==> !old(cell).spec_locked(),
            old(cell).same_contents(final(cell)),
            final(cell).spec_locked(),
            final(frames).wf(),
            final(frames).len() == old(frames).len() + 1,
            final(frames).chain((old(frames).len() + 1) as usize) == seq![(old(frames).len() + 1) as usize].add(
                old(frames).chain(old(cell).waiters()),
            ),
            locked ==> {
                &&& final(cell).spec_metadata() == old(cell).spec_metadata() | XLOCK
                &&& final(cell).waiters() == 0
                &&& final(frames).frame((old(frames).len() + 1) as usize).signalled()
                &&& forall|h: usize|
                    0 < h <= old(frames).len() ==> (#[trigger] final(frames).frame(h)).signalled() == (old(
                        frames,
                    ).frame(h).signalled() || old(frames).chain(old(cell).waiters()).contains(h))
            },
            !locked ==> {
                &&& final(cell).spec_metadata() == old(cell).spec_metadata()
                &&& final(cell).waiters() == old(frames).len() + 1
                &&& !final(frames).frame((old(frames).len() + 1) as usize).signalled()
                &&& forall|h: usize|
                    0 < h <= old(frames).len() ==> (#[trigger] final(frames).frame(h)).signalled() == old(
                        frames,
                    ).frame(h).signalled()
            },
    {
        let handle: usize = frames.park(cell.wait_queue);
        let ghost parked = *frames;
        cell.wait_queue = handle;
        proof {
            assert forall|h: usize| 0 < h <= old(frames).len() implies (#[trigger] parked.frame(h)) == old(frames).frame(h) by {
                assert(parked.frames()[h - 1] == old(frames).frames()[h - 1]);
            }
        }
        // try-lock again once the frame is inserted into the wait queue
        let current: u64 = cell.metadata;
        if is_xlocked(current) {
            return false;
        }
        cell.metadata = with_xlock(current);
        ExclusiveLocker::wakeup(cell, frames);
        proof {
            let first = old(frames).chain(old(cell).waiters());
            let all = parked.chain(handle);
            assert(all[0] == handle);
            assert(all.contains(handle));
            old(frames).lemma_chain_stable(&parked, old(cell).waiters());
            parked.lemma_chain_stable(frames, handle);
            assert forall|h: usize| 0 < h <= old(frames).len() implies (#[trigger] frames.frame(h)).signalled() == (old(
                frames,
            ).frame(h).signalled() || first.contains(h)) by {
                assert(parked.frame(h) == old(frames).frame(h));
                if first.contains(h) {
                    let i = choose|i: int| 0 <= i < first.len() && first[i] == h;
                    assert(all[i + 1] == h);
                }
                if all.contains(h) {
                    let i = choose|i: int| 0 <= i < all.len() && all[i] == h;
                    assert(i > 0);
                    assert(first[i - 1] == h);
                }
            }
        }
        true
    }

    /// Wakes every waiter that is parked on the cell: takes the queue off the cell and signals
    /// the frames from the newest to the oldest.
    pub fn wakeup(cell: &mut Cell, frames: &mut WaitFrames)
        requires
            old(frames).wf(),
            old(frames).valid(old(cell).waiters()),
        ensures
            final(cell).spec_metadata() == old(cell).spec_metadata(),
            old(cell).same_contents(final(cell)),
            final(cell).waiters() == 0,
            old(frames).woken(final(frames), old(cell).waiters()),
    {
        let head: usize = cell.wait_queue;
        if head == 0 {
            proof {
                assert(old(frames).chain(0) =~= Seq::<usize>::empty());
            }
            return ;
        }
        cell.wait_queue = 0;
        frames.wake_all(head);
    }

    /// Gives the lock back, if this locker took it: clears the lock bit and wakes every parked
    /// waiter.
    pub fn release(self, frames: &mut WaitFrames)
        requires
            old(frames).wf(),
            old(frames).valid(old(self.cell).waiters()),
        ensures
            old(self.cell).same_contents(final(self.cell)),
            xlocked(self.metadata) ==> {
                &&& final(self.cell).spec_metadata() == old(self.cell).spec_metadata() & !XLOCK
                &&& !final(self.cell).spec_locked()
                &&& final(self.cell).waiters() == 0
                &&& old(frames).woken(final(frames), old(self.cell).waiters())
            },
            !xlocked(self.metadata) ==> *final(self.cell) == *old(self.cell) && *final(frames) == *old(frames),
    {
        if is_xlocked(self.metadata) {
            self.cell.metadata = without_xlock(self.cell.metadata);
            ExclusiveLocker::wakeup(self.cell, frames);
        }
    }
}

} // verus!
