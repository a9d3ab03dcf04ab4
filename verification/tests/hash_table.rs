use scc::exit_guard::{Entry, ResizeMutex};
use scc::hash_table::cell_array::{partial_hash, saturating_add, saturating_mul, CellArray, UNIT_SIZE};
use scc::hash_table::{new_capacity, next_power_of_two, HashTable};
use std::collections::hash_map::DefaultHasher;
use std::hash::{Hash, Hasher};

fn spread(key: &u64) -> u64 {
    key.wrapping_mul(0x9E37_79B9_7F4A_7C15).rotate_left(31)
}

fn hash_of_str(key: &String) -> u64 {
    let mut hasher = DefaultHasher::new();
    key.hash(&mut hasher);
    hasher.finish()
}

fn moved<K, V>(_key: &K, _val: &V) -> Option<(K, V)> {
    None
}

fn copied(key: &u64, val: &u64) -> Option<(u64, u64)> {
    Some((*key, *val))
}

#[test]
fn empty_table_insert_read_count() {
    let guard = crossbeam_epoch::pin();
    let mut table = HashTable::<String, u64, _, _, false>::new(64, hash_of_str, moved);
    assert_eq!(table.num_entries(&guard), 0);
    assert_eq!(table.insert_entry("a".to_string(), 1), Ok(()));
    let key = "a".to_string();
    assert_eq!(table.read_entry(&key, |_k, v| *v, &guard), Some(1));
    assert_eq!(table.num_entries(&guard), 1);
}

#[test]
fn insert_then_read_yields_value() {
    let guard = crossbeam_epoch::pin();
    let mut table = HashTable::<u64, u64, _, _, true>::new(64, spread, copied);
    for key in 0..100u64 {
        assert_eq!(table.insert_entry(key, key * 3), Ok(()));
        assert_eq!(table.read_entry(&key, |k, v| (*k, *v), &guard), Some((key, key * 3)));
    }
    assert_eq!(table.read_entry(&1000, |_k, v| *v, &guard), None);
}

#[test]
fn second_insert_returns_pair_and_keeps_first_value() {
    let guard = crossbeam_epoch::pin();
    let mut table = HashTable::<u64, u64, _, _, false>::new(64, spread, moved);
    assert_eq!(table.insert_entry(7, 1), Ok(()));
    assert_eq!(table.insert_entry(7, 2), Err((7, 2)));
    assert_eq!(table.read_entry(&7, |_k, v| *v, &guard), Some(1));
    assert_eq!(table.num_entries(&guard), 1);
}

#[test]
fn insert_remove_read_returns_none() {
    let guard = crossbeam_epoch::pin();
    let mut table = HashTable::<u64, u64, _, _, false>::new(64, spread, moved);
    assert_eq!(table.insert_entry(7, 1), Ok(()));
    assert!(table.remove_if(&7, |_v| true));
    assert_eq!(table.read_entry(&7, |_k, v| *v, &guard), None);
    assert_eq!(table.num_entries(&guard), 0);
    assert!(!table.remove_if(&7, |_v| true));
}

#[test]
fn lock_free_flavour_marks_removed_entries() {
    let guard = crossbeam_epoch::pin();
    let mut table = HashTable::<u64, u64, _, _, true>::new(64, spread, copied);
    assert_eq!(table.insert_entry(7, 1), Ok(()));
    assert!(table.remove_if(&7, |_v| true));
    assert_eq!(table.read_entry(&7, |_k, v| *v, &guard), None);
    assert_eq!(table.num_entries(&guard), 0);
    assert_eq!(table.insert_entry(7, 2), Ok(()));
    assert_eq!(table.read_entry(&7, |_k, v| *v, &guard), Some(2));
    assert_eq!(table.num_entries(&guard), 1);
}

#[test]
fn remove_if_respects_the_condition() {
    let guard = crossbeam_epoch::pin();
    let mut table = HashTable::<u64, u64, _, _, false>::new(64, spread, moved);
    assert_eq!(table.insert_entry(7, 1), Ok(()));
    assert!(!table.remove_if(&7, |v| *v == 2));
    assert_eq!(table.read_entry(&7, |_k, v| *v, &guard), Some(1));
    assert!(table.remove_if(&7, |v| *v == 1));
    assert_eq!(table.read_entry(&7, |_k, v| *v, &guard), None);
}

#[test]
fn capacity_zero_gives_two_cells() {
    let guard = crossbeam_epoch::pin();
    let table = HashTable::<u64, u64, _, _, false>::new(0, spread, moved);
    assert_eq!(table.cell_array().num_cells(), 2);
    assert_eq!(table.num_slots(&guard), 32);
    assert_eq!(table.minimum_capacity(), 32);
    let array: CellArray<u64, u64> = CellArray::new(0, None);
    assert_eq!(array.num_cells(), 2);
    assert_eq!(array.num_entries(), 32);
}

#[test]
fn directory_sizes_are_powers_of_two() {
    let sizes = [(1usize, 2usize), (32, 2), (33, 4), (64, 4), (65, 8), (1024, 64), (1025, 128)];
    for (capacity, cells) in sizes {
        let array: CellArray<u64, u64> = CellArray::new(capacity, None);
        assert_eq!(array.num_cells(), cells);
        assert_eq!(array.num_entries(), cells * 16);
    }
}

#[test]
fn cell_index_is_made_of_the_high_bits() {
    let array: CellArray<u64, u64> = CellArray::new(1024, None);
    assert_eq!(array.num_cells(), 64);
    assert_eq!(array.calculate_cell_index(0), 0);
    assert_eq!(array.calculate_cell_index(u64::MAX), 63);
    assert_eq!(array.calculate_cell_index(1u64 << 58), 1);
    assert_eq!(array.calculate_cell_index((1u64 << 58) - 1), 0);
    assert_eq!(array.calculate_cell_index(5u64 << 58 | 0xff), 5);
    assert_eq!(partial_hash(0x1234_5678_9abc_def0), 0xf0);
    assert_eq!(partial_hash(u64::MAX), 0xff);
}

#[test]
fn sample_size_is_the_logarithm_of_the_size() {
    let two: CellArray<u64, u64> = CellArray::new(0, None);
    assert_eq!(two.sample_size(), 2);
    let four: CellArray<u64, u64> = CellArray::new(64, None);
    assert_eq!(four.sample_size(), 2);
    let many: CellArray<u64, u64> = CellArray::new(1024, None);
    assert_eq!(many.sample_size(), 6);
}

#[test]
fn hash_splits_into_full_and_partial() {
    let table = HashTable::<u64, u64, _, _, false>::new(64, |k: &u64| *k, moved);
    assert_eq!(table.hash(&0x1234), (0x1234, 0x34));
    assert_eq!(table.hash(&0xffff_ffff_ffff_ff80), (0xffff_ffff_ffff_ff80, 0x80));
    assert_eq!((table.hasher())(&77), 77);
}

#[test]
fn copier_of_each_flavour() {
    let moving = HashTable::<u64, u64, _, _, false>::new(64, spread, moved);
    assert_eq!(moving.copier(&1, &2), None);
    let copying = HashTable::<u64, u64, _, _, true>::new(64, spread, copied);
    assert_eq!(copying.copier(&1, &2), Some((1, 2)));
}

#[test]
fn estimate_scales_the_sample() {
    let guard = crossbeam_epoch::pin();
    let mut table = HashTable::<u64, u64, _, _, false>::new(1024, |k: &u64| *k, moved);
    for slot in 0..10u64 {
        assert_eq!(table.insert_entry(slot, slot), Ok(()));
        assert_eq!(table.insert_entry(3u64 << 58 | slot, slot), Ok(()));
        assert_eq!(table.insert_entry(9u64 << 58 | slot, slot), Ok(()));
    }
    // The cells 0 and 3 are among the first eight of 64 cells, the cell 9 is not.
    assert_eq!(table.cell_array().estimate(8), 20 * 8);
    assert_eq!(table.cell_array().estimate(2), 10 * 32);
    assert_eq!(table.cell_array().estimate(64), 30);
    assert_eq!(table.cell_array().count(), 30);
    assert_eq!(table.num_entries(&guard), 30);
}

#[test]
fn growth_doubles_up_to_thirty_two_times() {
    // At seven eighths of the capacity the table grows to hold fifteen eighths of the estimate.
    assert_eq!(new_capacity(1024, 896, 64), 2048);
    assert_eq!(new_capacity(1024, 895, 64), 1024);
    assert_eq!(new_capacity(1024, 1100, 64), 4096);
    assert_eq!(new_capacity(1024, 1_000_000, 64), 32 * 1024);
    assert_eq!(new_capacity(32, 28, 32), 64);
    let largest = usize::MAX / 2 + 1;
    assert_eq!(new_capacity(largest, usize::MAX, 64), largest);
    assert_eq!(new_capacity(largest / 2, usize::MAX, 64), largest);
}

#[test]
fn shrink_fits_the_estimate() {
    assert_eq!(new_capacity(8192, 512, 64), 512);
    assert_eq!(new_capacity(8192, 513, 64), 8192);
    assert_eq!(new_capacity(8192, 100, 64), 128);
    assert_eq!(new_capacity(8192, 0, 64), 64);
    assert_eq!(new_capacity(8192, 3, 2), 4);
    assert_eq!(new_capacity(8192, 1000, 64), 8192);
}

#[test]
fn next_power_of_two_rounds_up() {
    assert_eq!(next_power_of_two(0), 1);
    assert_eq!(next_power_of_two(1), 1);
    assert_eq!(next_power_of_two(2), 2);
    assert_eq!(next_power_of_two(3), 4);
    assert_eq!(next_power_of_two(1000), 1024);
    assert_eq!(next_power_of_two(1024), 1024);
    assert_eq!(next_power_of_two(usize::MAX / 2 + 1), usize::MAX / 2 + 1);
}

#[test]
fn saturating_arithmetic_stops_at_the_largest_count() {
    assert_eq!(saturating_add(1, 2), 3);
    assert_eq!(saturating_add(usize::MAX, 1), usize::MAX);
    assert_eq!(saturating_add(usize::MAX - 1, 1), usize::MAX);
    assert_eq!(saturating_mul(3, 4), 12);
    assert_eq!(saturating_mul(0, usize::MAX), 0);
    assert_eq!(saturating_mul(usize::MAX / 2 + 1, 2), usize::MAX);
}

#[test]
fn resize_mutex_admits_one_resizer() {
    let mut mutex = ResizeMutex::new();
    assert_eq!(mutex.load(), 0);
    assert_eq!(mutex.enter(), Entry::Acquired);
    assert_eq!(mutex.load(), 1);
    assert_eq!(mutex.enter(), Entry::Requested);
    assert_eq!(mutex.load(), 2);
    assert_eq!(mutex.enter(), Entry::Pending);
    assert_eq!(mutex.load(), 2);
    assert!(mutex.leave());
    assert_eq!(mutex.load(), 1);
    assert!(!mutex.leave());
    assert_eq!(mutex.load(), 0);
}

#[test]
fn resize_gives_the_mutex_back() {
    let guard = crossbeam_epoch::pin();
    let mut table = HashTable::<u64, u64, _, _, false>::new(1024, spread, moved);
    for key in 0..1000u64 {
        assert_eq!(table.insert_entry(key, key), Ok(()));
    }
    table.resize(&guard);
    assert_eq!(table.resize_mutex_ref().load(), 0);
    assert_eq!(table.num_entries(&guard), 1000);
}

/// Sixty-four cells with fifteen entries each: no cell is ever full, so no insertion resizes.
fn evenly_filled() -> HashTable<u64, u64, fn(&u64) -> u64, fn(&u64, &u64) -> Option<(u64, u64)>, false> {
    fn identity(key: &u64) -> u64 {
        *key
    }
    let mut table = HashTable::<u64, u64, fn(&u64) -> u64, fn(&u64, &u64) -> Option<(u64, u64)>, false>::new(
        1024,
        identity,
        moved::<u64, u64>,
    );
    for cell in 0..64u64 {
        for slot in 0..15u64 {
            assert_eq!(table.insert_entry(cell << 58 | slot, cell * 100 + slot), Ok(()));
        }
    }
    table
}

#[test]
fn resize_grows_a_loaded_table() {
    let guard = crossbeam_epoch::pin();
    let mut table = evenly_filled();
    assert_eq!(table.num_slots(&guard), 1024);
    assert!(table.cell_array().old_array(&guard).is_none());
    assert_eq!(table.num_entries(&guard), 960);
    // The first eight cells hold 120 entries, which makes 960 for 64 cells: more than seven
    // eighths of 1024. Fifteen eighths of 960 are 1800, which 2048 slots hold.
    assert_eq!(table.cell_array().estimate(8), 960);
    table.resize(&guard);
    // The slots of the directory and of its predecessor are counted.
    assert_eq!(table.num_slots(&guard), 2048 + 1024);
    assert_eq!(table.cell_array().num_entries(), 2048);
    assert_eq!(table.cell_array().num_cells(), 128);
    assert_eq!(table.cell_array().old_array(&guard).unwrap().num_cells(), 64);
    assert_eq!(table.cell_array().count(), 0);
    assert_eq!(table.cell_array().old_array(&guard).unwrap().count(), 960);
    assert_eq!(table.num_entries(&guard), 960);
    // With a predecessor present, the directory is not resized again.
    table.resize(&guard);
    assert_eq!(table.num_slots(&guard), 2048 + 1024);
    assert_eq!(table.cell_array().num_cells(), 128);
    for cell in 0..64u64 {
        for slot in 0..15u64 {
            assert_eq!(table.read_entry(&(cell << 58 | slot), |_k, v| *v, &guard), Some(cell * 100 + slot));
        }
    }
}

#[test]
fn predecessor_is_drained_by_later_operations() {
    let guard = crossbeam_epoch::pin();
    let mut table = evenly_filled();
    table.resize(&guard);
    // The predecessor has 64 cells, which four operations drain.
    let rounds = 64 / UNIT_SIZE;
    assert_eq!(rounds, 4);
    for round in 0..rounds {
        let previous = table.cell_array().old_array(&guard).unwrap();
        for cell in 0..64 {
            assert_eq!(previous.cell(cell).killed(&guard), cell < round * UNIT_SIZE);
        }
        assert_eq!(table.read_entry(&(63u64 << 58), |_k, v| *v, &guard), Some(6300));
    }
    assert!(table.cell_array().old_array(&guard).is_none());
    assert_eq!(table.num_slots(&guard), 2048);
    assert_eq!(table.cell_array().count(), 960);
    assert_eq!(table.num_entries(&guard), 960);
    for cell in 0..64u64 {
        for slot in 0..15u64 {
            assert_eq!(table.read_entry(&(cell << 58 | slot), |_k, v| *v, &guard), Some(cell * 100 + slot));
        }
    }
}

#[test]
fn acquire_drains_the_predecessor_cell_of_a_new_key() {
    let guard = crossbeam_epoch::pin();
    let mut table = evenly_filled();
    table.resize(&guard);
    // The key is new, so its cell of the predecessor is drained before the key is inserted.
    assert_eq!(table.insert_entry(40u64 << 58 | 15, 1), Ok(()));
    let previous = table.cell_array().old_array(&guard).unwrap();
    assert!(previous.cell(40).killed(&guard));
    assert!(!previous.cell(41).killed(&guard));
    assert_eq!(previous.cell(40).num_entries(), 0);
    assert_eq!(previous.cell(41).num_entries(), 15);
    // The directory is twice as large, so the entries of the cell are now in the cell 80.
    assert_eq!(table.cell_array().cell(80).num_entries(), 16);
    assert_eq!(table.num_entries(&guard), 961);
}

#[test]
fn acquire_finds_a_key_in_the_predecessor() {
    let guard = crossbeam_epoch::pin();
    let mut frames = scc::wait_queue::WaitFrames::new();
    let mut table = evenly_filled();
    table.resize(&guard);
    let key = 40u64 << 58 | 3;
    let (hash, partial) = table.hash(&key);
    let (index, locker, found) = table.acquire(&key, hash, partial, &guard);
    // The key is still in the predecessor, where the cell 40 is in charge of it.
    assert_eq!(index, 40);
    assert_eq!(locker.cell_ref().entry(&found.unwrap()), &(key, 4003));
    locker.release(&mut frames, &guard);
    assert!(!table.cell_array().old_array(&guard).unwrap().cell(40).killed(&guard));
    assert_eq!(table.insert_entry(key, 0), Err((key, 0)));
    assert!(table.remove_if(&key, |v| *v == 4003));
    assert_eq!(table.read_entry(&key, |_k, v| *v, &guard), None);
    assert_eq!(table.num_entries(&guard), 959);
}

#[test]
fn keys_in_two_cells_make_the_table_grow() {
    let guard = crossbeam_epoch::pin();
    // 64 cells of 16 slots; the keys go to the cells 0 and 1 in turn.
    let mut table = HashTable::<String, u64, _, _, false>::new(
        1024,
        |k: &String| -> u64 {
            let n: u64 = k[1..].parse().unwrap();
            ((n % 2) << 58) | n
        },
        moved,
    );
    assert_eq!(table.cell_array().num_cells(), 64);
    for n in 0..896u64 {
        assert_eq!(table.insert_entry(format!("k{}", n), n), Ok(()));
    }
    assert!(table.num_slots(&guard) >= 2048);
    let mut operations = 0;
    while table.cell_array().old_array(&guard).is_some() {
        assert_eq!(table.read_entry(&"k0".to_string(), |_k, v| *v, &guard), Some(0));
        operations += 1;
        assert!(operations <= 1024);
    }
    assert_eq!(table.num_entries(&guard), 896);
    for n in 0..896u64 {
        assert_eq!(table.read_entry(&format!("k{}", n), |_k, v| *v, &guard), Some(n));
    }
}

#[test]
fn twenty_thousand_keys_are_all_readable() {
    let guard = crossbeam_epoch::pin();
    let mut table = HashTable::<u64, u64, _, _, true>::new(64, spread, copied);
    for key in 0..10_000u64 {
        assert_eq!(table.insert_entry(key, key + 1), Ok(()));
        assert_eq!(table.insert_entry(key + 1_000_000, key + 2), Ok(()));
    }
    assert_eq!(table.num_entries(&guard), 20_000);
    for key in 0..10_000u64 {
        assert_eq!(table.read_entry(&key, |_k, v| *v, &guard), Some(key + 1));
        assert_eq!(table.read_entry(&(key + 1_000_000), |_k, v| *v, &guard), Some(key + 2));
    }
    assert!(table.num_slots(&guard) >= 16384);
}

#[test]
fn emptied_table_shrinks() {
    let guard = crossbeam_epoch::pin();
    let mut table = HashTable::<u64, u64, _, _, false>::new(64, spread, moved);
    let minimum = table.minimum_capacity();
    assert_eq!(minimum, 64);
    for key in 0..6000u64 {
        assert_eq!(table.insert_entry(key, key), Ok(()));
    }
    assert!(table.num_slots(&guard) >= 8192);
    for key in 0..6000u64 {
        assert!(table.remove_if(&key, |_v| true));
    }
    assert_eq!(table.num_entries(&guard), 0);
    let mut operations = 0;
    while table.num_slots(&guard) > 2 * minimum || table.cell_array().old_array(&guard).is_some() {
        assert_eq!(table.insert_entry(operations, 0), Ok(()));
        assert!(table.remove_if(&operations, |_v| true));
        operations += 1;
        assert!(operations <= 4096);
    }
    assert!(table.num_slots(&guard) <= 2 * minimum);
    assert_eq!(table.num_entries(&guard), 0);
}

#[test]
fn acquire_hands_out_the_cell_of_the_key() {
    let guard = crossbeam_epoch::pin();
    let mut frames = scc::wait_queue::WaitFrames::new();
    let mut table = HashTable::<u64, u64, _, _, false>::new(1024, |k: &u64| *k, moved);
    let (hash, partial) = table.hash(&(3u64 << 58 | 9));
    let (index, mut locker, found) = table.acquire(&(3u64 << 58 | 9), hash, partial, &guard);
    assert_eq!(index, 3);
    assert!(found.is_none());
    assert!(locker.cell_ref().locked());
    assert_eq!(locker.insert(3u64 << 58 | 9, 5, partial, &guard), Ok(()));
    locker.release(&mut frames, &guard);
    assert_eq!(table.read_entry(&(3u64 << 58 | 9), |_k, v| *v, &guard), Some(5));
    let (index, locker, found) = table.acquire(&(3u64 << 58 | 9), hash, partial, &guard);
    assert_eq!(index, 3);
    assert!(found.is_some());
    assert_eq!(locker.cell_ref().entry(&found.unwrap()), &(3u64 << 58 | 9, 5));
    locker.release(&mut frames, &guard);
    assert!(!table.cell_array().cell(3).locked());
}

#[test]
fn try_enlarge_needs_an_overloaded_neighbourhood() {
    let guard = crossbeam_epoch::pin();
    let mut table = HashTable::<u64, u64, _, _, false>::new(1024, |k: &u64| *k, moved);
    for key in 0..84u64 {
        assert_eq!(table.insert_entry(key, key), Ok(()));
    }
    // Six cells are read from the first cell on; they hold 84 entries, which is not more than
    // seven eighths of their 96 slots.
    assert!(!table.cell_array().exceeds(0, 6, 84));
    assert!(table.cell_array().exceeds(0, 6, 83));
    assert!(!table.cell_array().exceeds(1, 6, 0));
    assert!(table.cell_array().exceeds(63, 2, 83));
    table.try_enlarge(0, &guard);
    assert_eq!(table.num_slots(&guard), 1024);
    assert!(table.cell_array().old_array(&guard).is_none());
    // One more entry overloads the neighbourhood of the first cell, and the next insertion
    // into that cell resizes the table. The estimate is taken from eight cells and makes 680
    // entries, which is less than seven eighths of the capacity: the capacity stays.
    assert_eq!(table.insert_entry(84, 84), Ok(()));
    assert!(table.cell_array().exceeds(0, 6, 84));
    assert_eq!(table.cell_array().estimate(8), 680);
    table.try_enlarge(0, &guard);
    assert_eq!(table.num_slots(&guard), 1024);
    assert_eq!(table.resize_mutex_ref().load(), 0);
}

#[test]
fn try_shrink_keeps_the_minimum_capacity() {
    let guard = crossbeam_epoch::pin();
    let mut table = HashTable::<u64, u64, _, _, false>::new(1024, spread, moved);
    table.try_shrink(0, &guard);
    assert_eq!(table.num_slots(&guard), 1024);
    assert!(table.cell_array().old_array(&guard).is_none());
    // A table that has grown and is empty shrinks to its minimum capacity.
    let mut table = evenly_filled();
    table.resize(&guard);
    for cell in 0..64u64 {
        for slot in 0..15u64 {
            assert!(table.remove_if(&(cell << 58 | slot), |_v| true));
        }
    }
    while table.cell_array().old_array(&guard).is_some() {
        assert_eq!(table.read_entry(&0, |_k, v| *v, &guard), None);
    }
    assert_eq!(table.num_entries(&guard), 0);
    if table.num_slots(&guard) > 1024 {
        table.try_shrink(0, &guard);
        assert_eq!(table.num_slots(&guard), 1024);
        assert_eq!(table.cell_array().old_array(&guard).unwrap().num_cells(), 128);
    }
}

#[test]
fn no_key_is_stored_twice() {
    let guard = crossbeam_epoch::pin();
    let mut table = HashTable::<u64, u64, _, _, true>::new(64, spread, copied);
    for key in 0..3000u64 {
        assert_eq!(table.insert_entry(key, key), Ok(()));
        assert_eq!(table.insert_entry(key / 2, 0), Err((key / 2, 0)));
        if key % 3 == 0 {
            assert!(table.remove_if(&key, |_v| true));
            assert_eq!(table.insert_entry(key, key), Ok(()));
        }
    }
    let mut keys: Vec<u64> = Vec::new();
    let current = table.cell_array();
    let mut directories = vec![current];
    if let Some(previous) = current.old_array(&guard) {
        directories.push(previous);
    }
    for directory in directories {
        for index in 0..directory.num_cells() {
            let cell = directory.cell(index);
            for array in 0..cell.num_arrays() {
                for slot in 0..16 {
                    if let Some(place) = cell.slot(array, slot) {
                        keys.push(cell.entry(&place).0);
                    }
                }
            }
        }
    }
    keys.sort();
    let expected: Vec<u64> = (0..3000u64).collect();
    assert_eq!(keys, expected);
}

#[test]
fn migrated_key_is_in_the_cell_of_its_hash() {
    let guard = crossbeam_epoch::pin();
    let mut table = HashTable::<u64, u64, _, _, false>::new(64, spread, moved);
    for key in 0..3000u64 {
        assert_eq!(table.insert_entry(key, key), Ok(()));
    }
    while table.cell_array().old_array(&guard).is_some() {
        assert_eq!(table.read_entry(&0, |_k, v| *v, &guard), Some(0));
    }
    let directory = table.cell_array();
    for key in 0..3000u64 {
        let (hash, partial) = table.hash(&key);
        let index = directory.calculate_cell_index(hash);
        for other in 0..directory.num_cells() {
            assert_eq!(directory.cell(other).holds(&key, partial, &guard), other == index);
        }
    }
}
