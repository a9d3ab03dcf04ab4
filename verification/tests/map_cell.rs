use scc::map::cell::{is_xlocked, with_xlock, without_xlock, Cell, ExclusiveLocker, XLOCK};
use scc::wait_queue::WaitFrames;

#[test]
fn basic_assumptions() {
    assert_eq!(std::mem::size_of::<Cell>(), 64)
}

#[test]
fn basic_exclusive_locker() {
    let threads = 12;
    let mut frames = WaitFrames::new();
    let mut cell = Cell::new();
    for thread_id in 0..threads {
        for i in 0..4096 {
            let locker = ExclusiveLocker::new(&mut cell, &mut frames).ok().unwrap();
            if i % 256 == 255 {
                println!("locked {}:{}", thread_id, i);
            }
            locker.release(&mut frames);
        }
    }
    assert!(!cell.locked());
    assert_eq!(frames.count(), 0);
}

#[test]
fn lock_bit_is_bit_thirty_two() {
    assert_eq!(XLOCK, 1 << 32);
    assert!(!is_xlocked(0));
    assert!(!is_xlocked(0xffff_ffff));
    assert!(is_xlocked(1 << 32));
    assert!(is_xlocked(u64::MAX));
    assert_eq!(with_xlock(5), (1 << 32) | 5);
    assert_eq!(with_xlock((1 << 32) | 5), (1 << 32) | 5);
    assert_eq!(without_xlock((1 << 32) | 5), 5);
    assert_eq!(without_xlock(5), 5);
    assert_eq!(without_xlock(u64::MAX), u64::MAX - (1 << 32));
}

#[test]
fn exclusive_locker_sets_and_clears_the_bit() {
    let mut frames = WaitFrames::new();
    let mut cell = Cell::new();
    assert_eq!(cell.metadata(), 0);
    let locker = ExclusiveLocker::new(&mut cell, &mut frames).ok().unwrap();
    assert_eq!(locker.metadata, XLOCK);
    assert!(locker.cell.locked());
    locker.release(&mut frames);
    assert_eq!(cell.metadata(), 0);
    assert!(!cell.locked());
}

#[test]
fn exclusive_locker_parks_on_a_locked_cell() {
    let mut frames = WaitFrames::new();
    let mut cell = Cell::new();
    drop(ExclusiveLocker::new(&mut cell, &mut frames));
    assert!(cell.locked());
    let first = ExclusiveLocker::new(&mut cell, &mut frames).err().unwrap();
    assert!(!ExclusiveLocker::wait(&mut cell, &mut frames));
    assert_eq!(first, 1);
    assert_eq!(frames.count(), 2);
    assert!(!frames.is_signalled(1));
    assert!(!frames.is_signalled(2));
    // The holder releases the lock and wakes both waiters.
    ExclusiveLocker { cell: &mut cell, metadata: XLOCK }.release(&mut frames);
    assert!(!cell.locked());
    assert!(frames.is_signalled(1));
    assert!(frames.is_signalled(2));
    // A waiter that finds the lock free takes it and wakes the queue.
    assert!(ExclusiveLocker::wait(&mut cell, &mut frames));
    assert!(cell.locked());
    assert!(frames.is_signalled(3));
    ExclusiveLocker::wakeup(&mut cell, &mut frames);
    assert!(cell.locked());
}

#[test]
fn locker_without_the_bit_releases_nothing() {
    let mut frames = WaitFrames::new();
    let mut cell = Cell::new();
    drop(ExclusiveLocker::new(&mut cell, &mut frames));
    ExclusiveLocker { cell: &mut cell, metadata: 0 }.release(&mut frames);
    assert!(cell.locked());
}
