//! Frames of parked waiters and the LIFO chains that lock words point into.
//!
//! A waiter that finds a cell locked leaves a frame behind and is woken through it. Frames are
//! named by handles: handle `h > 0` names the `h`-th frame that was ever parked, and 0 names no
//! frame. Every frame links to the frame that headed the queue when it was pushed, so a chain
//! runs from the newest waiter to the oldest.

use vstd::prelude::*;

verus! {

/// The lock bit of a lock word.
pub const LOCK_TAG: usize = 1;

/// Whether a lock word has its lock bit set.
pub open spec fn locked(word: usize) -> bool {
    word % 2 == 1
}

/// The handle of the newest parked waiter that a lock word holds above its lock bit.
pub open spec fn head(word: usize) -> usize {
    word / 2
}

/// Tells whether the lock bit of `word` is set.
pub fn is_locked(word: usize) -> (held: bool)
    ensures
        held == locked(word),
{
    let bit: usize = word & LOCK_TAG;
    assert(word & 1 == word % 2) by (bit_vector);
    bit != 0
}

/// The handle of the newest parked waiter in `word`.
pub fn head_of(word: usize) -> (handle: usize)
    ensures
        handle == head(word),
{
    let handle: usize = word >> 1;
    assert(word >> 1 == word / 2) by (bit_vector);
    handle
}

/// `word` with the lock bit set.
pub fn with_lock(word: usize) -> (next: usize)
    ensures
        locked(next),
        head(next) == head(word),
{
    let next: usize = word | LOCK_TAG;
    assert((word | 1) % 2 == 1 && (word | 1) / 2 == word / 2) by (bit_vector);
    next
}

/// `word` with the lock bit cleared.
pub fn without_lock(word: usize) -> (next: usize)
    ensures
        !locked(next),
        head(next) == head(word),
{
    let next: usize = word & !LOCK_TAG;
    assert((word & !1usize) % 2 == 0 && (word & !1usize) / 2 == word / 2) by (bit_vector);
    next
}

/// `word` with `handle` as the newest parked waiter; the lock bit stays as it is.
pub fn with_head(word: usize, handle: usize) -> (next: usize)
    requires
        handle <= usize::MAX / 2,
    ensures
        locked(next) == locked(word),
        head(next) == handle,
{
    let bit: usize = word & LOCK_TAG;
    assert(word & 1 == word % 2) by (bit_vector);
    handle * 2 + bit
}

/// The frame of one parked waiter.
pub struct WaitQueueEntry {
    completed: bool,
    next: usize,
}

impl WaitQueueEntry {
    /// Whether the frame has been signalled.
    pub closed spec fn signalled(&self) -> bool {
        self.completed
    }

    /// The handle of the frame that was the head of the queue before this one.
    pub closed spec fn link(&self) -> usize {
        self.next
    }

    /// A fresh frame that links to the current head of the queue.
    pub fn new(wait_queue: usize) -> (entry: Self)
        ensures
            !entry.signalled(),
            entry.link() == wait_queue,
    {
        WaitQueueEntry { completed: false, next: wait_queue }
    }

    /// Tells whether the waiter may go on, that is whether its frame has been signalled.
    pub fn wait(&self) -> (done: bool)
        ensures
            done == self.signalled(),
    {
        self.completed
    }

    /// Signals the frame.
    pub fn signal(&mut self)
        ensures
            final(self).signalled(),
            final(self).link() == old(self).link(),
    {
        self.completed = true;
    }

    /// Reads the link to the next frame.
    pub fn next(&self) -> (next: usize)
        ensures
            next == self.link(),
    {
        self.next
    }
}

/// All frames that were ever parked, in the order in which they were pushed.
pub struct WaitFrames {
    entries: Vec<WaitQueueEntry>,
}

impl WaitFrames {
    /// The frames, oldest first.
    pub closed spec fn frames(&self) -> Seq<WaitQueueEntry> {
        self.entries@
    }

    /// The number of frames.
    pub open spec fn len(&self) -> nat {
        self.frames().len()
    }

    /// A handle that names a frame, or no frame.
    pub open spec fn valid(&self, handle: usize) -> bool {
        handle <= self.len()
    }

    /// The frame that a handle names.
    pub open spec fn frame(&self, handle: usize) -> WaitQueueEntry
        recommends
            0 < handle <= self.len(),
    {
        self.frames()[handle - 1]
    }

    /// Every frame links to an older one, or to none.
    pub open spec fn wf(&self) -> bool {
        forall|h: usize| 0 < h <= self.len() ==> (#[trigger] self.frame(h)).link() < h
    }

    /// The handles of the chain that starts at `head`, newest waiter first.
    pub open spec fn chain(&self, head: usize) -> Seq<usize>
        decreases head,
    {
        if head == 0 || head > self.len() || self.frame(head).link() >= head {
            Seq::empty()
        } else {
            seq![head].add(self.chain(self.frame(head).link()))
        }
    }

    /// What waking the chain at `head` changes: the frames of the chain are signalled, and
    /// nothing else changes.
    pub open spec fn woken(&self, after: &Self, head: usize) -> bool {
        &&& after.wf()
        &&& after.len() == self.len()
        &&& forall|h: usize| 0 < h <= self.len() ==> (#[trigger] after.frame(h)).link() == self.frame(h).link()
        &&& forall|h: usize|
            0 < h <= self.len() ==> (#[trigger] after.frame(h)).signalled() == (self.frame(h).signalled()
                || self.chain(head).contains(h))
    }

    /// No frames.
    pub fn new() -> (frames: Self)
        ensures
            frames.wf(),
            frames.len() == 0,
    {
        WaitFrames { entries: Vec::new() }
    }

    /// The number of frames.
    pub fn count(&self) -> (n: usize)
        ensures
            n == self.len(),
    {
        self.entries.len()
    }

    /// Chains are made of valid handles, and what a chain holds depends only on the frames up
    /// to its head.
    pub proof fn lemma_chain_stable(&self, other: &WaitFrames, head: usize)
        requires
            head <= self.len() <= other.len(),
            forall|h: usize| 0 < h <= head ==> (#[trigger] other.frame(h)).link() == self.frame(h).link(),
        ensures
            other.chain(head) == self.chain(head),
            forall|i: int| 0 <= i < self.chain(head).len() ==> 0 < #[trigger] self.chain(head)[i] <= head,
        decreases head,
    {
        if head == 0 || self.frame(head).link() >= head {
        } else {
            let next = self.frame(head).link();
            self.lemma_chain_stable(other, next);
            assert(other.frame(head).link() == next);
            let rest = self.chain(next);
            assert forall|i: int| 0 <= i < self.chain(head).len() implies 0 < #[trigger] self.chain(head)[i] <= head by {
                if i > 0 {
                    assert(self.chain(head)[i] == rest[i - 1]);
                }
            }
        }
    }

    /// Parks a waiter: pushes a frame that links to `head` and returns its handle, the new head
    /// of that queue.
    pub fn park(&mut self, head: usize) -> (handle: usize)
        requires
            old(self).wf(),
            old(self).valid(head),
            old(self).len() < usize::MAX,
        ensures
            final(self).wf(),
            handle == old(self).len() + 1,
            final(self).len() == handle,
            final(self).frames() == old(self).frames().push(final(self).frame(handle)),
            !final(self).frame(handle).signalled(),
            final(self).frame(handle).link() == head,
            final(self).chain(handle) == seq![handle].add(old(self).chain(head)),
    {
        self.entries.push(WaitQueueEntry::new(head));
        let handle: usize = self.entries.len();
        proof {
            assert forall|h: usize| 0 < h <= final(self).len() implies (#[trigger] final(self).frame(h)).link() < h by {
                if h < handle {
                    assert(final(self).frame(h) == old(self).frame(h));
                }
            }
            assert forall|h: usize| 0 < h <= head implies (#[trigger] final(self).frame(h)).link() == old(self).frame(h).link() by {
                assert(final(self).frame(h) == old(self).frame(h));
            }
            old(self).lemma_chain_stable(final(self), head);
        }
        handle
    }

    /// Tells whether the frame that `handle` names has been signalled.
    pub fn is_signalled(&self, handle: usize) -> (done: bool)
        requires
            0 < handle <= self.len(),
        ensures
            done == self.frame(handle).signalled(),
    {
        self.entries[handle - 1].wait()
    }

    /// Signals every frame of the chain that starts at `head`, newest waiter first, and leaves
    /// all other frames as they are.
    pub fn wake_all(&mut self, head: usize)
        requires
            old(self).wf(),
            old(self).valid(head),
        ensures
            old(self).woken(final(self), head),
    {
        let mut current: usize = head;
        let ghost mut done: Seq<usize> = Seq::empty();
        while current != 0
            invariant
                old(self).wf(),
                self.wf(),
                self.len() == old(self).len(),
                current <= self.len(),
                forall|h: usize| 0 < h <= old(self).len() ==> (#[trigger] self.frame(h)).link() == old(self).frame(h).link(),
                old(self).chain(head) == done.add(old(self).chain(current)),
                forall|h: usize| 0 < h <= old(self).len() ==> (#[trigger] self.frame(h)).signalled() == (
                    old(self).frame(h).signalled() || done.contains(h)),
            decreases current,
        {
            let ghost before = *self;
            let next: usize = self.entries[current - 1].next();
            self.entries[current - 1].signal();
            proof {
                assert(before.frame(current).link() == old(self).frame(current).link());
                assert(next < current);
                let longer = done.push(current);
                assert(old(self).chain(current) == seq![current].add(old(self).chain(next)));
                assert(done.add(seq![current].add(old(self).chain(next))) =~= longer.add(old(self).chain(next)));
                assert forall|h: usize| 0 < h <= old(self).len() implies (#[trigger] self.frame(h)).link() == old(self).frame(h).link() by {
                    if h != current {
                        assert(self.frame(h) == before.frame(h));
                    }
                }
                assert forall|h: usize| 0 < h <= old(self).len() implies (#[trigger] self.frame(h)).signalled() == (
                    old(self).frame(h).signalled() || longer.contains(h)) by {
                    if h != current {
                        assert(self.frame(h) == before.frame(h));
                        if longer.contains(h) {
                            let i = choose|i: int| 0 <= i < longer.len() && longer[i] == h;
                            assert(done[i] == h);
                        }
                        if done.contains(h) {
                            let i = choose|i: int| 0 <= i < done.len() && done[i] == h;
                            assert(longer[i] == h);
                        }
                    } else {
                        assert(longer[longer.len() - 1] == current);
                    }
                }
                done = longer;
            }
            current = next;
        }
        proof {
            assert(old(self).chain(0) =~= Seq::<usize>::empty());
            assert(done.add(Seq::<usize>::empty()) =~= done);
        }
    }
}

} // verus!
