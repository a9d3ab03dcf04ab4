use scc::hashindex::cell::{Cell, CellLocker, ARRAY_SIZE};
use scc::wait_queue::{head_of, is_locked, with_head, with_lock, without_lock, WaitFrames, WaitQueueEntry};

#[test]
fn cell_locker() {
    let guard = crossbeam_epoch::pin();
    let mut frames = WaitFrames::new();
    let mut cell: Cell<usize, usize> = Default::default();
    for thread_id in 0..ARRAY_SIZE {
        let mut xlocker = CellLocker::lock(&mut cell, &mut frames, &guard).ok().unwrap();
        assert!(xlocker
            .insert(thread_id, 0, (thread_id % ARRAY_SIZE) as u8, &guard)
            .is_ok());
        xlocker.release(&mut frames, &guard);
    }
    for _ in 0..4096 {
        let xlocker = CellLocker::lock(&mut cell, &mut frames, &guard).ok().unwrap();
        xlocker.release(&mut frames, &guard);
    }
    for thread_id in 0..ARRAY_SIZE {
        assert_eq!(
            cell.search(&thread_id, (thread_id % ARRAY_SIZE) as u8, &guard)
                .unwrap(),
            &(thread_id, 0usize)
        );
    }
    let mut xlocker = CellLocker::lock(&mut cell, &mut frames, &guard).ok().unwrap();
    xlocker.kill(&guard);
    xlocker.release(&mut frames, &guard);
    assert!(cell.killed(&guard));
}

#[test]
fn new_cell_is_empty_and_unlocked() {
    let guard = crossbeam_epoch::pin();
    let cell: Cell<u64, u64> = Cell::new();
    assert!(!cell.killed(&guard));
    assert!(!cell.locked());
    assert_eq!(cell.num_entries(), 0);
    assert_eq!(cell.num_arrays(), 1);
    assert_eq!(cell.search(&1, 1, &guard), None);
}

#[test]
fn insert_prefers_the_slot_of_the_partial_hash() {
    let guard = crossbeam_epoch::pin();
    let mut frames = WaitFrames::new();
    let mut cell: Cell<u64, u64> = Cell::new();
    let mut locker = CellLocker::try_lock(&mut cell, &guard).unwrap();
    assert_eq!(locker.insert(100, 1, 0x25, &guard), Ok(()));
    locker.release(&mut frames, &guard);
    // The preferred slot is the partial hash modulo the number of slots.
    assert!(cell.slot(0, 5).is_some());
    for i in 0..ARRAY_SIZE {
        assert_eq!(cell.slot(0, i).is_some(), i == 5);
    }
    assert_eq!(cell.entry(&cell.slot(0, 5).unwrap()), &(100, 1));
}

#[test]
fn insert_falls_back_to_the_first_vacant_slot() {
    let guard = crossbeam_epoch::pin();
    let mut frames = WaitFrames::new();
    let mut cell: Cell<u64, u64> = Cell::new();
    let mut locker = CellLocker::try_lock(&mut cell, &guard).unwrap();
    assert_eq!(locker.insert(100, 1, 5, &guard), Ok(()));
    assert_eq!(locker.insert(101, 2, 5, &guard), Ok(()));
    assert_eq!(locker.insert(102, 3, 5, &guard), Ok(()));
    locker.release(&mut frames, &guard);
    assert_eq!(cell.entry(&cell.slot(0, 5).unwrap()), &(100, 1));
    assert_eq!(cell.entry(&cell.slot(0, 0).unwrap()), &(101, 2));
    assert_eq!(cell.entry(&cell.slot(0, 1).unwrap()), &(102, 3));
    assert_eq!(cell.num_entries(), 3);
}

#[test]
fn duplicate_key_comes_back() {
    let guard = crossbeam_epoch::pin();
    let mut frames = WaitFrames::new();
    let mut cell: Cell<u64, u64> = Cell::new();
    let mut locker = CellLocker::try_lock(&mut cell, &guard).unwrap();
    assert_eq!(locker.insert(100, 1, 5, &guard), Ok(()));
    assert_eq!(locker.insert(100, 2, 5, &guard), Err((100, 2)));
    locker.release(&mut frames, &guard);
    assert_eq!(cell.search(&100, 5, &guard), Some(&(100, 1)));
    assert_eq!(cell.num_entries(), 1);
}

#[test]
fn full_cell_gets_an_overflow_array() {
    let guard = crossbeam_epoch::pin();
    let mut frames = WaitFrames::new();
    let mut cell: Cell<u64, u64> = Cell::new();
    let mut locker = CellLocker::try_lock(&mut cell, &guard).unwrap();
    for key in 0..16u64 {
        assert_eq!(locker.insert(key, key, 3, &guard), Ok(()));
        assert_eq!(locker.cell_ref().num_arrays(), 1);
    }
    assert_eq!(locker.insert(16, 16, 3, &guard), Ok(()));
    assert_eq!(locker.cell_ref().num_arrays(), 2);
    for key in 17..32u64 {
        assert_eq!(locker.insert(key, key, 3, &guard), Ok(()));
        assert_eq!(locker.cell_ref().num_arrays(), 2);
    }
    assert_eq!(locker.insert(32, 32, 3, &guard), Ok(()));
    assert_eq!(locker.cell_ref().num_arrays(), 3);
    locker.release(&mut frames, &guard);
    assert_eq!(cell.num_entries(), 33);
    for key in 0..33u64 {
        assert_eq!(cell.search(&key, 3, &guard), Some(&(key, key)));
    }
    // The entry that did not fit is in the preferred slot of the new array.
    assert_eq!(cell.entry(&cell.slot(1, 3).unwrap()), &(16, 16));
}

#[test]
fn new_overflow_array_is_vacant_but_for_the_new_entry() {
    let guard = crossbeam_epoch::pin();
    let mut frames = WaitFrames::new();
    let mut cell: Cell<u64, u64> = Cell::new();
    let mut locker = CellLocker::try_lock(&mut cell, &guard).unwrap();
    for key in 0..17u64 {
        assert_eq!(locker.insert(key, key, 3, &guard), Ok(()));
    }
    locker.release(&mut frames, &guard);
    assert_eq!(cell.num_arrays(), 2);
    for slot in 0..ARRAY_SIZE {
        assert_eq!(cell.slot(1, slot).is_some(), slot == 3);
        assert!(cell.slot(0, slot).is_some());
    }
    // The next entry with another partial hash finds its preferred slot vacant.
    let mut locker = CellLocker::try_lock(&mut cell, &guard).unwrap();
    assert_eq!(locker.insert(100, 100, 7, &guard), Ok(()));
    // And the next entry with the same partial hash goes to the first vacant slot.
    assert_eq!(locker.insert(101, 101, 3, &guard), Ok(()));
    locker.release(&mut frames, &guard);
    assert_eq!(cell.entry(&cell.slot(1, 7).unwrap()), &(100, 100));
    assert_eq!(cell.entry(&cell.slot(1, 0).unwrap()), &(101, 101));
}

#[test]
fn default_cell_has_vacant_slots() {
    let guard = crossbeam_epoch::pin();
    let cell: Cell<u64, u64> = Default::default();
    assert!(!cell.killed(&guard));
    assert!(!cell.locked());
    assert_eq!(cell.num_arrays(), 1);
    assert_eq!(cell.num_entries(), 0);
    for slot in 0..ARRAY_SIZE {
        assert!(cell.slot(0, slot).is_none());
    }
}

#[test]
fn partial_hash_uses_six_bits() {
    let guard = crossbeam_epoch::pin();
    let mut frames = WaitFrames::new();
    let mut cell: Cell<u64, u64> = Cell::new();
    let mut locker = CellLocker::try_lock(&mut cell, &guard).unwrap();
    assert_eq!(locker.insert(1, 10, 0xff, &guard), Ok(()));
    assert_eq!(locker.insert(2, 20, 0x00, &guard), Ok(()));
    locker.release(&mut frames, &guard);
    assert_eq!(cell.search(&1, 0xff, &guard), Some(&(1, 10)));
    // The two flag bits do not tell partial hashes apart.
    assert_eq!(cell.search(&1, 0x3f, &guard), Some(&(1, 10)));
    assert_eq!(cell.search(&1, 0x3e, &guard), None);
    assert_eq!(cell.search(&2, 0x00, &guard), Some(&(2, 20)));
    assert_eq!(cell.search(&2, 0x40, &guard), Some(&(2, 20)));
    assert!(cell.holds(&2, 0x80, &guard));
    assert!(!cell.holds(&2, 0x01, &guard));
}

#[test]
fn removed_entry_keeps_its_slot() {
    let guard = crossbeam_epoch::pin();
    let mut frames = WaitFrames::new();
    let mut cell: Cell<u64, u64> = Cell::new();
    let mut locker = CellLocker::try_lock(&mut cell, &guard).unwrap();
    assert_eq!(locker.insert(100, 1, 5, &guard), Ok(()));
    assert!(locker.remove(&100, 5, &guard));
    assert!(!locker.remove(&100, 5, &guard));
    assert_eq!(locker.cell_ref().num_entries(), 0);
    // The slot is not vacant, so the next entry goes to the first vacant slot.
    assert_eq!(locker.insert(101, 2, 5, &guard), Ok(()));
    locker.release(&mut frames, &guard);
    assert_eq!(cell.search(&100, 5, &guard), None);
    assert!(cell.slot(0, 5).is_none());
    assert_eq!(cell.entry(&cell.slot(0, 0).unwrap()), &(101, 2));
}

#[test]
fn extracted_entry_frees_its_slot() {
    let guard = crossbeam_epoch::pin();
    let mut frames = WaitFrames::new();
    let mut cell: Cell<u64, u64> = Cell::new();
    let mut locker = CellLocker::try_lock(&mut cell, &guard).unwrap();
    assert_eq!(locker.insert(100, 1, 5, &guard), Ok(()));
    assert_eq!(locker.extract(&100, 5, &guard), Some((100, 1)));
    assert_eq!(locker.extract(&100, 5, &guard), None);
    assert_eq!(locker.insert(101, 2, 5, &guard), Ok(()));
    locker.release(&mut frames, &guard);
    assert_eq!(cell.entry(&cell.slot(0, 5).unwrap()), &(101, 2));
    assert_eq!(cell.num_entries(), 1);
}

#[test]
fn erase_and_mark_work_by_place() {
    let guard = crossbeam_epoch::pin();
    let mut frames = WaitFrames::new();
    let mut cell: Cell<u64, u64> = Cell::new();
    let mut locker = CellLocker::try_lock(&mut cell, &guard).unwrap();
    assert_eq!(locker.insert(100, 1, 5, &guard), Ok(()));
    assert_eq!(locker.insert(101, 2, 6, &guard), Ok(()));
    let place = locker.cell_ref().get(&100, 5, &guard).unwrap();
    assert_eq!(locker.erase(&place), (100, 1));
    let place = locker.cell_ref().get(&101, 6, &guard).unwrap();
    locker.mark_removed(&place);
    assert!(locker.cell_ref().get(&101, 6, &guard).is_none());
    locker.release(&mut frames, &guard);
    assert_eq!(cell.num_entries(), 0);
    assert!(cell.holds_at_least(0));
    assert!(!cell.holds_at_least(1));
}

#[test]
fn drain_hands_out_every_entry_once() {
    let guard = crossbeam_epoch::pin();
    let mut frames = WaitFrames::new();
    let mut cell: Cell<u64, u64> = Cell::new();
    let mut locker = CellLocker::try_lock(&mut cell, &guard).unwrap();
    for key in 0..20u64 {
        assert_eq!(locker.insert(key, key * 2, key as u8, &guard), Ok(()));
    }
    assert!(locker.remove(&3, 3, &guard));
    let mut entries = locker.drain(&|k: &u64, v: &u64| if *k % 2 == 0 { Some((*k, *v)) } else { None });
    locker.release(&mut frames, &guard);
    entries.sort();
    let expected: Vec<(u64, u64)> = (0..20u64).filter(|k| *k != 3).map(|k| (k, k * 2)).collect();
    assert_eq!(entries, expected);
    assert_eq!(cell.num_entries(), 0);
    assert!(!cell.killed(&guard));
}

#[test]
fn killed_cell_takes_nothing() {
    let guard = crossbeam_epoch::pin();
    let mut frames = WaitFrames::new();
    let mut cell: Cell<u64, u64> = Cell::new();
    let mut locker = CellLocker::try_lock(&mut cell, &guard).unwrap();
    assert_eq!(locker.insert(100, 1, 5, &guard), Ok(()));
    locker.kill(&guard);
    assert_eq!(locker.insert(101, 2, 6, &guard), Err((101, 2)));
    assert!(!locker.remove(&100, 5, &guard));
    locker.kill(&guard);
    locker.release(&mut frames, &guard);
    assert!(cell.killed(&guard));
    assert_eq!(cell.num_entries(), 0);
    assert_eq!(cell.num_arrays(), 0);
    assert_eq!(cell.search(&100, 5, &guard), None);
}

#[test]
fn try_lock_fails_on_a_locked_cell() {
    let guard = crossbeam_epoch::pin();
    let mut frames = WaitFrames::new();
    let mut cell: Cell<u64, u64> = Cell::new();
    // A locker that is dropped without a release leaves the cell locked.
    assert!(CellLocker::try_lock(&mut cell, &guard).is_some());
    assert!(cell.locked());
    assert!(CellLocker::try_lock(&mut cell, &guard).is_none());
    assert!(cell.locked());
    cell.wakeup(&mut frames, &guard);
    assert!(cell.locked());
}

#[test]
fn waiters_are_parked_and_woken_in_order() {
    let guard = crossbeam_epoch::pin();
    let mut frames = WaitFrames::new();
    let mut cell: Cell<u64, u64> = Cell::new();
    let holder = CellLocker::lock(&mut cell, &mut frames, &guard);
    assert!(holder.is_ok());
    drop(holder);
    // Two waiters find the cell locked and are parked.
    let first = CellLocker::lock(&mut cell, &mut frames, &guard).err().unwrap();
    let second = CellLocker::wait(&mut cell, &mut frames, &guard).err().unwrap();
    assert_eq!((first, second), (1, 2));
    assert_eq!(frames.count(), 2);
    assert!(!frames.is_signalled(first));
    assert!(!frames.is_signalled(second));
    assert!(cell.locked());
    // The holder comes back and releases the lock, which wakes both.
    let holder = CellLocker { cell_ref: &mut cell };
    holder.release(&mut frames, &guard);
    assert!(!cell.locked());
    assert!(frames.is_signalled(first));
    assert!(frames.is_signalled(second));
    // A waiter that was woken takes the lock.
    let locker = CellLocker::lock(&mut cell, &mut frames, &guard).ok().unwrap();
    locker.release(&mut frames, &guard);
    assert_eq!(frames.count(), 2);
}

#[test]
fn waiter_that_gets_the_lock_wakes_the_others() {
    let guard = crossbeam_epoch::pin();
    let mut frames = WaitFrames::new();
    let mut cell: Cell<u64, u64> = Cell::new();
    // A waiter that finds the lock free takes it and is woken at once.
    let locker = CellLocker::wait(&mut cell, &mut frames, &guard).ok().unwrap();
    assert!(locker.cell_ref().locked());
    assert!(frames.is_signalled(1));
    // The holder is gone without a release; two waiters are parked.
    drop(locker);
    assert_eq!(CellLocker::wait(&mut cell, &mut frames, &guard).err(), Some(2));
    assert_eq!(CellLocker::wait(&mut cell, &mut frames, &guard).err(), Some(3));
    // The queue is woken while the lock stays held.
    cell.wakeup(&mut frames, &guard);
    assert!(cell.locked());
    assert!(frames.is_signalled(2));
    assert!(frames.is_signalled(3));
    assert_eq!(CellLocker::wait(&mut cell, &mut frames, &guard).err(), Some(4));
    assert!(!frames.is_signalled(4));
}

#[test]
fn lock_word_keeps_lock_and_queue_apart() {
    assert!(!is_locked(0));
    assert!(is_locked(1));
    assert!(!is_locked(6));
    assert!(is_locked(7));
    assert_eq!(head_of(0), 0);
    assert_eq!(head_of(1), 0);
    assert_eq!(head_of(6), 3);
    assert_eq!(head_of(7), 3);
    assert_eq!(with_lock(6), 7);
    assert_eq!(with_lock(7), 7);
    assert_eq!(without_lock(7), 6);
    assert_eq!(without_lock(6), 6);
    assert_eq!(with_head(1, 5), 11);
    assert_eq!(with_head(0, 5), 10);
    assert_eq!(with_head(7, 0), 1);
}

#[test]
fn frames_link_to_older_frames() {
    let mut frames = WaitFrames::new();
    assert_eq!(frames.park(0), 1);
    assert_eq!(frames.park(1), 2);
    assert_eq!(frames.park(0), 3);
    assert_eq!(frames.park(2), 4);
    frames.wake_all(4);
    assert!(frames.is_signalled(4));
    assert!(frames.is_signalled(2));
    assert!(frames.is_signalled(1));
    assert!(!frames.is_signalled(3));
    frames.wake_all(0);
    assert!(!frames.is_signalled(3));
    frames.wake_all(3);
    assert!(frames.is_signalled(3));
}

#[test]
fn frame_is_signalled_once() {
    let mut entry = WaitQueueEntry::new(7);
    assert_eq!(entry.next(), 7);
    assert!(!entry.wait());
    entry.signal();
    assert!(entry.wait());
    entry.signal();
    assert!(entry.wait());
    assert_eq!(entry.next(), 7);
}
