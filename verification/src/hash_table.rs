//! The hash table: hashing, the paths that read, insert and remove, and the resizing of the
//! directory.
//!
//! The table owns the current directory, which owns its predecessor while that is being drained.
//! Every operation that touches a key first helps the migration along, so that a resize is paid
//! for by the operations that follow it and none of them stalls.

pub mod cell_array;

use crate::exit_guard::{leave_on_exit, Entry, ResizeMutex};
use crate::hash_table::cell_array::{
    after_rehash, cap, hash_fn, is_hasher, lemma_hash, partial, partial_hash, saturating_add, saturating_mul,
    CellArray, UNIT_SIZE,
};
use crate::hashindex::cell::{is_copier, tag_of, Cell, CellLocker, EntryIterator, ARRAY_SIZE};
use crate::wait_queue::WaitFrames;
use crossbeam_epoch::Guard;
use vstd::arithmetic::power2::{lemma_pow2_unfold, pow2};
use vstd::laws_eq::obeys_concrete_eq;
use vstd::prelude::*;

verus! {

/// Whether `n` is a power of two.
pub open spec fn is_power_of_two(n: int) -> bool {
    exists|e: nat| n == pow2(e)
}

/// Whether `p` is the least power of two that is not smaller than `n`.
pub open spec fn is_next_power_of_two(n: usize, p: usize) -> bool {
    &&& is_power_of_two(p as int)
    &&& p >= n
    &&& p == 1 || p / 2 < n
}

/// The least power of two that is not smaller than `n`.
pub fn next_power_of_two(n: usize) -> (p: usize)
    requires
        n <= usize::MAX / 2 + 1,
    ensures
        is_next_power_of_two(n, p),
{
    let mut p: usize = 1;
    let ghost mut e: nat = 0;
    proof {
        vstd::arithmetic::power2::lemma2_to64();
    }
    while p < n
        invariant
            n <= usize::MAX / 2 + 1,
            p == pow2(e),
            p >= 1,
            p == 1 || p / 2 < n,
        decreases usize::MAX - p,
    {
        proof {
            lemma_pow2_unfold(e + 1);
            e = e + 1;
        }
        p = p * 2;
    }
    p
}

/// Whether `capacity` is the capacity of a directory: `ARRAY_SIZE` slots for each of a power of
/// two of cells, two cells at least.
pub open spec fn is_directory_capacity(capacity: int) -> bool {
    exists|lb: nat| lb >= 1 && capacity == ARRAY_SIZE * pow2(lb)
}

/// Whether growing from `capacity` towards `target` ends at `grown`: the capacity is doubled
/// until it reaches the target, but no more than five times and never beyond the largest
/// capacity, so that one step of resizing makes a directory at most 32 times as large.
pub open spec fn grows_to(capacity: usize, target: usize, grown: usize) -> bool {
    &&& exists|steps: nat| steps <= 5 && grown == capacity * pow2(steps)
    &&& grown == capacity || grown / 2 < target
    &&& grown >= target || grown == 32 * capacity || grown > usize::MAX / 2
}

/// The sizing policy. With the estimated number of entries at seven eighths of the capacity or
/// more, the table grows towards fifteen eighths of the estimate, unless it is as large as it
/// can be. With the estimate at one sixteenth of the capacity or less, it shrinks to the least
/// power of two that holds the estimate, but not below its minimum capacity. Else it stays.
pub open spec fn resized(capacity: usize, estimate: usize, minimum_capacity: usize, target: usize) -> bool {
    if estimate >= capacity / 8 * 7 {
        if capacity > usize::MAX / 2 {
            target == capacity
        } else {
            grows_to(capacity, cap((estimate / 8 * 15) as nat), target)
        }
    } else if estimate <= capacity / 16 {
        exists|p: usize| is_next_power_of_two(estimate, p) && target == if p >= minimum_capacity {
            p
        } else {
            minimum_capacity
        }
    } else {
        target == capacity
    }
}

/// Computes the capacity that the sizing policy asks for.
pub fn new_capacity(capacity: usize, estimated_num_entries: usize, minimum_capacity: usize) -> (target: usize)
    requires
        capacity > 0,
    ensures
        resized(capacity, estimated_num_entries, minimum_capacity, target),
{
    if estimated_num_entries >= (capacity / 8) * 7 {
        if capacity > usize::MAX / 2 {
            // The capacity cannot be increased.
            capacity
        } else {
            let goal: usize = saturating_mul(estimated_num_entries / 8, 15);
            let mut new_capacity: usize = capacity;
            let ghost mut steps: nat = 0;
            proof {
                vstd::arithmetic::power2::lemma2_to64();
            }
            while new_capacity < goal && new_capacity <= usize::MAX / 2 && new_capacity / capacity < 32
                invariant
                    capacity > 0,
                    steps <= 5,
                    new_capacity == capacity * pow2(steps),
                    new_capacity == capacity || new_capacity / 2 < goal,
                    steps == 5 ==> new_capacity / capacity >= 32,
                decreases usize::MAX - new_capacity,
            {
                proof {
                    lemma_growth_step(capacity, steps);
                    if steps == 5 {
                        assert(false);
                    }
                    steps = steps + 1;
                }
                new_capacity = new_capacity * 2;
            }
            proof {
                lemma_grown(capacity, steps);
            }
            new_capacity
        }
    } else if estimated_num_entries <= capacity / 16 {
        // Shrinks to fit.
        let p: usize = next_power_of_two(estimated_num_entries);
        if p >= minimum_capacity {
            p
        } else {
            minimum_capacity
        }
    } else {
        capacity
    }
}

/// A capacity that has been doubled `steps` times is `2^steps` times as large, and after five
/// doublings it is 32 times as large.
proof fn lemma_growth_step(capacity: usize, steps: nat)
    requires
        capacity > 0,
        steps <= 5,
    ensures
        capacity * pow2(steps + 1) == 2 * (capacity * pow2(steps)),
        capacity * pow2(steps) >= capacity,
        steps + 1 == 5 ==> (2 * (capacity * pow2(steps))) / (capacity as int) >= 32,
{
    vstd::arithmetic::power2::lemma2_to64();
    lemma_pow2_unfold(steps + 1);
    let p = pow2(steps) as int;
    assert(capacity * (2 * p) == 2 * (capacity * p)) by (nonlinear_arith);
    assert(capacity * p >= capacity) by (nonlinear_arith)
        requires
            p >= 1,
            capacity > 0,
    ;
    if steps + 1 == 5 {
        assert(p == 16);
        assert((2 * (capacity * 16)) / (capacity as int) >= 32) by (nonlinear_arith)
            requires
                capacity > 0,
        ;
    }
}

/// A capacity that has been doubled five times is 32 times as large.
proof fn lemma_grown(capacity: usize, steps: nat)
    requires
        capacity > 0,
        steps <= 5,
    ensures
        (capacity * pow2(steps)) / (capacity as int) >= 32 ==> capacity * pow2(steps) == 32 * capacity,
{
    vstd::arithmetic::power2::lemma2_to64();
    let p = pow2(steps) as int;
    assert(p == 1 || p == 2 || p == 4 || p == 8 || p == 16 || p == 32);
    vstd::arithmetic::div_mod::lemma_div_multiples_vanish(p, capacity as int);
    assert(capacity * pow2(steps) == (capacity as int) * p);
    if p == 32 {
        assert(capacity * pow2(steps) == 32 * capacity);
    }
}

/// What an insertion makes of the entries of a table, and what it answers: a key that is there
/// stays as it is and the pair comes back, and a key that is not there gets the value.
pub open spec fn insertion<K, V>(entries: Map<K, V>, key: K, val: V) -> (Map<K, V>, Result<(), (K, V)>) {
    if entries.contains_key(key) {
        (entries, Err((key, val)))
    } else {
        (entries.insert(key, val), Ok(()))
    }
}

/// What a removal makes of the entries of a table, and what it answers, given whether the
/// condition holds of the value of the key.
pub open spec fn removal<K, V>(entries: Map<K, V>, key: K, holds: bool) -> (Map<K, V>, bool) {
    if entries.contains_key(key) && holds {
        (entries.remove(key), true)
    } else {
        (entries, false)
    }
}

/// What a read finds.
pub open spec fn lookup<K, V>(entries: Map<K, V>, key: K) -> Option<V> {
    if entries.contains_key(key) {
        Some(entries[key])
    } else {
        None
    }
}

/// An insertion of a new key followed by a read of the key yields the value.
pub proof fn law_insert_then_read<K, V>(entries: Map<K, V>, key: K, val: V)
    requires
        !entries.contains_key(key),
    ensures
        insertion(entries, key, val).1 is Ok,
        lookup(insertion(entries, key, val).0, key) == Some(val),
{
}

/// A second insertion of a key is answered with its own pair, and a read still finds the value
/// of the first.
pub proof fn law_insert_twice<K, V>(entries: Map<K, V>, key: K, first: V, second: V)
    requires
        !entries.contains_key(key),
    ensures
        insertion(entries, key, first).1 is Ok,
        insertion(insertion(entries, key, first).0, key, second).1 == Err::<(), (K, V)>((key, second)),
        lookup(insertion(insertion(entries, key, first).0, key, second).0, key) == Some(first),
{
}

/// After an insertion and a removal of a key, a read finds nothing.
pub proof fn law_insert_remove_read<K, V>(entries: Map<K, V>, key: K, val: V)
    requires
        !entries.contains_key(key),
    ensures
        removal(insertion(entries, key, val).0, key, true).1,
        lookup(removal(insertion(entries, key, val).0, key, true).0, key) is None,
        removal(insertion(entries, key, val).0, key, true).0 == entries,
{
    assert(entries.insert(key, val).remove(key) =~= entries);
}

/// An operation that changes the entries of a table.
pub enum Operation<K, V> {
    /// The insertion of a pair.
    Insert(K, V),
    /// The removal of a key, whatever its value.
    Remove(K),
}

/// What an operation makes of the entries of a table.
pub open spec fn apply<K, V>(entries: Map<K, V>, operation: Operation<K, V>) -> Map<K, V> {
    match operation {
        Operation::Insert(key, val) => insertion(entries, key, val).0,
        Operation::Remove(key) => removal(entries, key, true).0,
    }
}

/// What a sequence of operations makes of the entries of a table.
pub open spec fn run<K, V>(entries: Map<K, V>, operations: Seq<Operation<K, V>>) -> Map<K, V>
    decreases operations.len(),
{
    if operations.len() == 0 {
        entries
    } else {
        apply(run(entries, operations.drop_last()), operations.last())
    }
}

/// The net effect of a sequence of operations on one key, given what a read of the key found
/// before: an insertion of the key gives it its value if it has none, a removal of the key takes
/// its value away, and operations on other keys leave it alone.
pub open spec fn net_effect<K, V>(before: Option<V>, operations: Seq<Operation<K, V>>, key: K) -> Option<V>
    decreases operations.len(),
{
    if operations.len() == 0 {
        before
    } else {
        let so_far = net_effect(before, operations.drop_last(), key);
        match operations.last() {
            Operation::Insert(k, val) => if k == key && so_far is None {
                Some(val)
            } else {
                so_far
            },
            Operation::Remove(k) => if k == key {
                None
            } else {
                so_far
            },
        }
    }
}

/// After any sequence of insertions and removals, a read of a key finds the net effect of the
/// sequence on the key.
pub proof fn law_net_effect<K, V>(entries: Map<K, V>, operations: Seq<Operation<K, V>>, key: K)
    ensures
        lookup(run(entries, operations), key) == net_effect(lookup(entries, key), operations, key),
    decreases operations.len(),
{
    if operations.len() > 0 {
        law_net_effect(entries, operations.drop_last(), key);
    }
}

/// A table that grows does so by doubling its capacity at most five times: the new capacity is
/// at least the old one and at most 32 times as large.
pub proof fn law_growth_bounded(capacity: usize, estimate: usize, minimum_capacity: usize, target: usize)
    requires
        capacity > 0,
        estimate >= capacity / 8 * 7,
        resized(capacity, estimate, minimum_capacity, target),
    ensures
        capacity <= target <= 32 * capacity,
        exists|steps: nat| steps <= 5 && target == capacity * pow2(steps),
{
    vstd::arithmetic::power2::lemma2_to64();
    if capacity > usize::MAX / 2 {
        assert(target == capacity * pow2(0));
    } else {
        let steps = choose|steps: nat| steps <= 5 && target == capacity * pow2(steps);
        let p = pow2(steps) as int;
        assert(p == 1 || p == 2 || p == 4 || p == 8 || p == 16 || p == 32);
        assert(capacity * pow2(steps) == (capacity as int) * p);
    }
}

/// A table that shrinks does so to the least power of two that holds the estimated number of
/// entries, or to its minimum capacity if that is larger. The capacity is that of a directory,
/// which has two cells at least, and so is the minimum capacity; then the target is the
/// capacity of a directory, too.
pub proof fn law_shrink_to_fit(capacity: usize, estimate: usize, minimum_capacity: usize, target: usize)
    requires
        capacity >= 2 * ARRAY_SIZE,
        is_directory_capacity(minimum_capacity as int),
        estimate <= capacity / 16,
        resized(capacity, estimate, minimum_capacity, target),
    ensures
        target >= minimum_capacity,
        target >= estimate,
        target == minimum_capacity || is_next_power_of_two(estimate, target),
        is_directory_capacity(target as int),
{
    vstd::arithmetic::power2::lemma2_to64();
    if target != minimum_capacity {
        let lb = choose|lb: nat| lb >= 1 && minimum_capacity == ARRAY_SIZE * pow2(lb);
        let e = choose|e: nat| target == pow2(e);
        vstd::arithmetic::power2::lemma_pow2_adds(4, lb);
        assert(minimum_capacity == pow2(4 + lb));
        if e < 5 {
            if e < 4 + lb {
                vstd::arithmetic::power2::lemma_pow2_strictly_increases(e, 4 + lb);
            }
            assert(false);
        }
        vstd::arithmetic::power2::lemma_pow2_adds(4, (e - 4) as nat);
        assert(target == ARRAY_SIZE * pow2((e - 4) as nat));
    }
}

/// The hash table. `hasher` gives every key its hash. `copier` is asked for a copy of each entry
/// that a migration moves: the read-optimised flavour (`LOCK_FREE`) hands out copies, the other
/// flavour hands out nothing and has its entries moved.
#[verifier::reject_recursive_types(K)]
pub struct HashTable<K, V, H, C, const LOCK_FREE: bool> {
    array: CellArray<K, V>,
    minimum_capacity: usize,
    resize_mutex: ResizeMutex,
    build_hasher: H,
    copier: C,
}

impl<K: PartialEq, V, H: Fn(&K) -> u64, C: Fn(&K, &V) -> Option<(K, V)>, const LOCK_FREE: bool> View for HashTable<
    K,
    V,
    H,
    C,
    LOCK_FREE,
> {
    type V = Map<K, V>;

    /// The entries of the table.
    open spec fn view(&self) -> Map<K, V> {
        self.spec_cell_array().entries(self.hash_of())
    }
}

impl<K: PartialEq, V, H: Fn(&K) -> u64, C: Fn(&K, &V) -> Option<(K, V)>, const LOCK_FREE: bool> HashTable<
    K,
    V,
    H,
    C,
    LOCK_FREE,
> {
    /// The current directory.
    pub closed spec fn spec_cell_array(&self) -> CellArray<K, V> {
        self.array
    }

    /// The hasher.
    pub closed spec fn spec_hasher(&self) -> H {
        self.build_hasher
    }

    /// The copier.
    pub closed spec fn spec_copier(&self) -> C {
        self.copier
    }

    /// The least capacity that the table shrinks to.
    pub closed spec fn spec_minimum_capacity(&self) -> usize {
        self.minimum_capacity
    }

    /// The resize mutex.
    pub closed spec fn spec_resize_mutex(&self) -> ResizeMutex {
        self.resize_mutex
    }

    /// The hash of each key.
    pub open spec fn hash_of(&self) -> spec_fn(K) -> u64 {
        hash_fn(self.spec_hasher())
    }

    /// The invariant of the table: the hasher gives each key one hash, the copier is faithful,
    /// the directory and its predecessor hold every key where its hash puts it and no key twice,
    /// the resize mutex is in one of its three states, and the minimum capacity is the capacity
    /// of a directory.
    pub open spec fn wf(&self) -> bool {
        &&& obeys_concrete_eq::<K>()
        &&& is_hasher(self.spec_hasher())
        &&& is_copier(self.spec_copier())
        &&& self.spec_cell_array().inv(self.hash_of())
        &&& self.spec_resize_mutex().wf()
        &&& is_directory_capacity(self.spec_minimum_capacity() as int)
    }

    /// Whether `other` is a table with the same hasher, copier and minimum capacity.
    pub open spec fn same_params(&self, other: &Self) -> bool {
        &&& other.spec_hasher() == self.spec_hasher()
        &&& other.spec_copier() == self.spec_copier()
        &&& other.spec_minimum_capacity() == self.spec_minimum_capacity()
    }

    /// Returns a reference to the hasher.
    pub fn hasher(&self) -> (hasher: &H)
        ensures
            *hasher == self.spec_hasher(),
    {
        &self.build_hasher
    }

    /// Copies an entry for a migration, or hands back nothing if entries are to be moved.
    pub fn copier(&self, key: &K, val: &V) -> (copy: Option<(K, V)>)
        requires
            is_copier(self.spec_copier()),
        ensures
            call_ensures(self.spec_copier(), (key, val), copy),
            copy is None || copy == Some((*key, *val)),
    {
        (self.copier)(key, val)
    }

    /// Estimates the number of entries of a directory from its first `num_cells_to_sample`
    /// cells.
    pub fn estimate(array_ref: &CellArray<K, V>, num_cells_to_sample: usize) -> (estimate: usize)
        requires
            array_ref.wf_cells(),
            0 < num_cells_to_sample <= array_ref.cells().len(),
        ensures
            estimate == cap(
                array_ref.load(0, num_cells_to_sample as nat) * (array_ref.cells().len() / num_cells_to_sample as nat),
            ),
    {
        array_ref.estimate(num_cells_to_sample)
    }

    /// Returns a reference to the current directory.
    pub fn cell_array(&self) -> (array: &CellArray<K, V>)
        ensures
            *array == self.spec_cell_array(),
    {
        &self.array
    }

    /// Returns the minimum allowed capacity.
    pub fn minimum_capacity(&self) -> (capacity: usize)
        ensures
            capacity == self.spec_minimum_capacity(),
    {
        self.minimum_capacity
    }

    /// Returns a reference to the resize mutex.
    pub fn resize_mutex_ref(&self) -> (mutex: &ResizeMutex)
        ensures
            *mutex == self.spec_resize_mutex(),
    {
        &self.resize_mutex
    }

    /// Returns the hash value of the given key and its partial hash, the low eight bits.
    pub fn hash(&self, key: &K) -> (hashes: (u64, u8))
        requires
            is_hasher(self.spec_hasher()),
        ensures
            hashes.0 == (self.hash_of())(*key),
            hashes.1 == partial(hashes.0),
    {
        let hash: u64 = (self.build_hasher)(key);
        proof {
            lemma_hash(self.build_hasher, *key, hash);
        }
        (hash, partial_hash(hash))
    }

    /// Returns the number of entries, over the directory and its predecessor, as far as a
    /// `usize` can tell it.
    pub fn num_entries(&self, guard: &Guard) -> (n: usize)
        requires
            self.wf(),
        ensures
            n == cap(self@.len()),
    {
        proof {
            self.spec_cell_array().lemma_entries_len(self.hash_of());
        }
        let mut num_entries: usize = self.array.count();
        match self.array.old_array(guard) {
            Some(previous) => {
                num_entries = saturating_add(num_entries, previous.count());
            },
            None => {},
        }
        num_entries
    }

    /// Returns the number of slots in the first slot arrays of all cells, over the directory and
    /// its predecessor, as far as a `usize` can tell it.
    pub fn num_slots(&self, guard: &Guard) -> (n: usize)
        requires
            self.wf(),
        ensures
            n == cap(
                (self.spec_cell_array().cells().len() * ARRAY_SIZE + match self.spec_cell_array().predecessor() {
                    Some(previous) => previous.cells().len() * ARRAY_SIZE,
                    None => 0,
                }) as nat,
            ),
    {
        let mut num_slots: usize = self.array.num_entries();
        match self.array.old_array(guard) {
            Some(previous) => {
                num_slots = saturating_add(num_slots, previous.num_entries());
            },
            None => {},
        }
        num_slots
    }

    /// A table with room for `capacity` entries, which is also the least room that it keeps.
    /// However small `capacity` is, the directory has two cells.
    pub fn new(capacity: usize, hasher: H, copier: C) -> (table: Self)
        requires
            obeys_concrete_eq::<K>(),
            is_hasher(hasher),
            is_copier(copier),
        ensures
            table.wf(),
            table@ == Map::<K, V>::empty(),
            table.spec_hasher() == hasher,
            table.spec_copier() == copier,
            table.spec_cell_array().predecessor() is None,
            table.spec_cell_array().cells().len() >= 2,
            table.spec_minimum_capacity() == table.spec_cell_array().cells().len() * ARRAY_SIZE,
            table.spec_cell_array().sized_for(capacity),
            table.spec_resize_mutex().state() == 0,
    {
        let array: CellArray<K, V> = CellArray::new(capacity, None);
        let minimum_capacity: usize = array.num_entries();
        let table = HashTable { array, minimum_capacity, resize_mutex: ResizeMutex::new(), build_hasher: hasher, copier };
        proof {
            let h = table.hash_of();
            vstd::arithmetic::power2::lemma_pow2_strictly_increases(0, table.array.lb());
            vstd::arithmetic::power2::lemma2_to64();
            assert forall|k: K| !table.array.own_entries(h).contains_key(k) by {
                table.array.lemma_cell_index_in_range(h(k));
            }
            assert(table@ =~= Map::<K, V>::empty());
            assert(table.array.lb() >= 1 && minimum_capacity == ARRAY_SIZE * pow2(table.array.lb()));
        }
        table
    }
}


impl<
    K: PartialEq + Send + 'static,
    V: Send + 'static,
    H: Fn(&K) -> u64,
    C: Fn(&K, &V) -> Option<(K, V)>,
    const LOCK_FREE: bool,
> HashTable<K, V, H, C, LOCK_FREE> {
    /// The number of cells that a resize reads to estimate the number of entries: an eighth of
    /// the cells, but at least 2 and at most 4096.
    pub open spec fn cells_to_sample(&self) -> nat {
        let eighth = self.spec_cell_array().cells().len() / 8;
        if eighth < 2 {
            2
        } else if eighth > 4096 {
            4096
        } else {
            eighth
        }
    }

    /// The number of entries that a resize estimates the table to hold.
    pub open spec fn estimated(&self) -> usize {
        let array = self.spec_cell_array();
        cap(array.load(0, self.cells_to_sample()) * (array.cells().len() / self.cells_to_sample()))
    }

    /// What one round of resizing does to the directory. Nothing while a predecessor is being
    /// drained, and nothing if the sizing policy asks for the capacity that the directory has.
    /// Else a new directory of the size that the policy asks for takes the place of the
    /// directory, which becomes its predecessor with all its entries.
    pub open spec fn replaces_array(&self, after: &Self) -> bool {
        let array = self.spec_cell_array();
        let capacity = (array.cells().len() * ARRAY_SIZE) as usize;
        if array.predecessor() is Some {
            after.spec_cell_array() == array
        } else {
            exists|target: usize|
                {
                    &&& #[trigger] resized(capacity, self.estimated(), self.spec_minimum_capacity(), target)
                    &&& if target == capacity {
                        after.spec_cell_array() == array
                    } else {
                        &&& after.spec_cell_array().predecessor() == Some(array)
                        &&& after.spec_cell_array().sized_for(target)
                        &&& after.spec_cell_array().cursor() == 0
                    }
                }
        }
    }

    /// What `resize` does. An idle resize mutex is taken, one round of resizing is run, and the
    /// mutex is given back. A mutex that is held is asked for another round, and nothing else
    /// happens. The entries of the table stay what they are.
    pub open spec fn resizes(&self, after: &Self) -> bool {
        &&& after.wf()
        &&& after@ == self@
        &&& self.same_params(after)
        &&& if self.spec_resize_mutex().state() == 0 {
            after.spec_resize_mutex().state() == 0 && self.replaces_array(after)
        } else {
            after.spec_resize_mutex().state() == 2 && after.spec_cell_array() == self.spec_cell_array()
        }
    }

    /// One round of resizing.
    fn resize_round(&mut self, guard: &Guard)
        requires
            old(self).wf(),
        ensures
            final(self).wf(),
            final(self)@ == old(self)@,
            old(self).same_params(final(self)),
            final(self).spec_resize_mutex() == old(self).spec_resize_mutex(),
            old(self).replaces_array(final(self)),
    {
        if self.array.old_array(guard).is_some() {
            // With a predecessor present, the directory cannot be resized.
            return ;
        }
        let capacity: usize = self.array.num_entries();
        let num_cells: usize = self.array.num_cells();
        let eighth: usize = num_cells / 8;
        let num_cells_to_sample: usize = if eighth < 2 {
            2
        } else if eighth > 4096 {
            4096
        } else {
            eighth
        };
        proof {
            vstd::arithmetic::power2::lemma_pow2_strictly_increases(0, self.array.lb());
            vstd::arithmetic::power2::lemma2_to64();
        }
        let estimated_num_entries: usize = Self::estimate(&self.array, num_cells_to_sample);
        let target: usize = new_capacity(capacity, estimated_num_entries, self.minimum_capacity);
        if target != capacity {
            let ghost h = self.hash_of();
            let mut array: CellArray<K, V> = CellArray::new(target, None);
            std::mem::swap(&mut self.array, &mut array);
            self.array.attach(array, Ghost(h));
        }
        proof {
            assert(resized(
                (old(self).spec_cell_array().cells().len() * ARRAY_SIZE) as usize,
                old(self).estimated(),
                old(self).spec_minimum_capacity(),
                target,
            ));
        }
    }

    /// Resizes the directory, if no other resize is under way.
    pub fn resize(&mut self, guard: &Guard)
        requires
            old(self).wf(),
        ensures
            old(self).resizes(final(self)),
    {
        match self.resize_mutex.enter() {
            Entry::Acquired => {},
            // Another resize is under way, and will run once more.
            Entry::Requested => {
                return ;
            },
            Entry::Pending => {
                return ;
            },
        }
        let mut resize: bool = true;
        while resize
            invariant
                self.wf(),
                self@ == old(self)@,
                old(self).same_params(self),
                old(self).spec_resize_mutex().state() == 0,
                resize ==> self.spec_resize_mutex().state() == 1 && self.spec_cell_array() == old(self).spec_cell_array(),
                !resize ==> self.spec_resize_mutex().state() == 0 && old(self).replaces_array(self),
            decreases
                    if resize {
                        1int
                    } else {
                        0int
                    },
        {
            let ghost before = *self;
            self.resize_round(guard);
            proof {
                assert(before.replaces_array(self));
                assert(before.spec_cell_array() == old(self).spec_cell_array());
                assert(before.estimated() == old(self).estimated());
            }
            resize = leave_on_exit(&mut self.resize_mutex);
        }
    }

    /// Resizes the directory if the cell at `cell_index` and the cells that follow it hold more
    /// than seven eighths of what their first slot arrays have room for.
    pub fn try_enlarge(&mut self, cell_index: usize, guard: &Guard)
        requires
            old(self).wf(),
            cell_index < old(self).spec_cell_array().cells().len(),
        ensures
            final(self).wf(),
            final(self)@ == old(self)@,
            old(self).same_params(final(self)),
            if old(self).overloaded(cell_index as int) {
                old(self).resizes(final(self))
            } else {
                final(self).spec_cell_array() == old(self).spec_cell_array() && final(self).spec_resize_mutex() == old(
                    self,
                ).spec_resize_mutex()
            },
    {
        let sample_size: usize = self.array.sample_size();
        let per_cell: usize = ARRAY_SIZE / 8 * 7;
        assert(per_cell == 14);
        let threshold: usize = sample_size * per_cell;
        if self.array.exceeds(cell_index, sample_size, threshold) {
            self.resize(guard);
        }
    }

    /// Whether the cells that `try_enlarge` reads from the cell at `cell_index` on hold more than
    /// seven eighths of what their first slot arrays have room for.
    pub open spec fn overloaded(&self, cell_index: int) -> bool {
        let array = self.spec_cell_array();
        let sample_size: nat = if array.lb() < 2 {
            2
        } else {
            array.lb()
        };
        cap(array.load(cell_index, sample_size)) > sample_size * 14
    }

    /// Whether the cells that `try_shrink` reads after the cell at `cell_index` hold less than a
    /// sixteenth of what the first slot arrays of as many cells have room for, with one more
    /// cell counted for room than for entries.
    pub open spec fn underloaded(&self, cell_index: int) -> bool {
        let array = self.spec_cell_array();
        let sample_size: nat = if array.lb() < 2 {
            2
        } else {
            array.lb()
        };
        cap(array.load((cell_index + 1) % (array.cells().len() as int), (sample_size - 1) as nat)) < sample_size
    }

    /// Resizes the directory if it is larger than the minimum capacity and the cells that follow
    /// the cell at `cell_index` hold less than a sixteenth of what they have room for.
    pub fn try_shrink(&mut self, cell_index: usize, guard: &Guard)
        requires
            old(self).wf(),
            cell_index < old(self).spec_cell_array().cells().len(),
        ensures
            final(self).wf(),
            final(self)@ == old(self)@,
            old(self).same_params(final(self)),
            old(self).shrinks(final(self), cell_index as int),
    {
        if self.array.num_entries() > self.minimum_capacity {
            let sample_size: usize = self.array.sample_size();
            let array_size: usize = self.array.num_cells();
            let threshold: usize = sample_size * ARRAY_SIZE / 16;
            assert(threshold == sample_size);
            let next: usize = if cell_index + 1 == array_size {
                0
            } else {
                cell_index + 1
            };
            proof {
                crate::hash_table::cell_array::lemma_next_index(cell_index as int, 0, array_size as int);
                vstd::arithmetic::div_mod::lemma_small_mod(cell_index as nat, array_size as nat);
            }
            if !self.array.exceeds(next, sample_size - 1, threshold - 1) {
                self.resize(guard);
            }
        }
    }
}


impl<
    K: PartialEq + Send + 'static,
    V: Send + 'static,
    H: Fn(&K) -> u64,
    C: Fn(&K, &V) -> Option<(K, V)>,
    const LOCK_FREE: bool,
> HashTable<K, V, H, C, LOCK_FREE> {
    /// Whether `key` is visible in the predecessor.
    pub open spec fn in_predecessor(&self, key: K) -> bool {
        self.spec_cell_array().predecessor() is Some && self.spec_cell_array().predecessor().unwrap().own_entries(
            self.hash_of(),
        ).contains_key(key)
    }

    /// The index of the cell that is in charge of `key`: the cell that the hash of the key
    /// selects in the predecessor if the key is visible there, and in the directory if not.
    pub open spec fn owner(&self, key: K) -> int {
        if self.in_predecessor(key) {
            self.spec_cell_array().predecessor().unwrap().spec_cell_index((self.hash_of())(key))
        } else {
            self.spec_cell_array().spec_cell_index((self.hash_of())(key))
        }
    }

    /// The cell that is in charge of `key`.
    pub open spec fn owner_cell(&self, key: K) -> Cell<K, V> {
        self.spec_cell_array().cell_at(self.in_predecessor(key), self.owner(key))
    }

    /// Whether `after` is this table with the cell in charge of `key` replaced by `cell`.
    pub open spec fn with_owner_cell(&self, after: &Self, key: K, cell: Cell<K, V>) -> bool {
        &&& self.same_params(after)
        &&& after.spec_resize_mutex() == self.spec_resize_mutex()
        &&& self.spec_cell_array().with_cell(
            &after.spec_cell_array(),
            self.in_predecessor(key),
            self.owner(key),
            cell,
        )
    }

    /// A key is in the table exactly if it is in the cell that is in charge of it, with the
    /// value that it has there and under the tag of its hash.
    pub proof fn lemma_owner(&self, key: K)
        requires
            self.wf(),
        ensures
            self@.contains_key(key) <==> self.owner_cell(key)@.contains_key(key),
            self@.contains_key(key) ==> self@[key] == self.owner_cell(key)@[key] && self.owner_cell(key).tags()[key]
                == tag_of(partial((self.hash_of())(key))),
            self.owner_cell(key).wf(),
            self.owner_cell(key).word() == 0,
            !self.in_predecessor(key) ==> !self.owner_cell(key).spec_killed(),
            self.in_predecessor(key) ==> 0 <= self.owner(key) < self.spec_cell_array().predecessor().unwrap().cells().len(),
            !self.in_predecessor(key) ==> 0 <= self.owner(key) < self.spec_cell_array().cells().len(),
    {
        let array = self.spec_cell_array();
        let h = self.hash_of();
        array.lemma_cell_index_in_range(h(key));
        if array.predecessor() is Some {
            array.predecessor().unwrap().lemma_cell_index_in_range(h(key));
        }
    }

    /// Once the predecessor is gone, a key is in the table exactly if it is in the cell that its
    /// hash selects in the directory: no other cell needs to be looked at.
    pub proof fn law_single_cell(&self, key: K)
        requires
            self.wf(),
            self.spec_cell_array().predecessor() is None,
        ensures
            ({
                let array = self.spec_cell_array();
                let cell = array.cells()[array.spec_cell_index((self.hash_of())(key))];
                &&& 0 <= array.spec_cell_index((self.hash_of())(key)) < array.cells().len()
                &&& self@.contains_key(key) <==> cell@.contains_key(key)
                &&& self@.contains_key(key) ==> self@[key] == cell@[key]
            }),
    {
        self.lemma_owner(key);
    }

    /// No key is visible twice: two slots that hold visible entries of the same key, in any
    /// cells of the directory or of its predecessor, are the same slot.
    pub proof fn law_no_duplicate_keys(
        &self,
        first: (bool, int, int, int),
        second: (bool, int, int, int),
    )
        requires
            self.wf(),
            self.names_slot(first),
            self.names_slot(second),
            self.key_at(first) == self.key_at(second),
        ensures
            first == second,
    {
        let h = self.hash_of();
        let array = self.spec_cell_array();
        let key = self.key_at(first);
        let a = array.cell_at(first.0, first.1);
        let b = array.cell_at(second.0, second.1);
        a.chain().lemma_views();
        b.chain().lemma_views();
        assert(a.chain().tag_at(first.2, first.3) != 0);
        assert(b.chain().tag_at(second.2, second.3) != 0);
        assert(a@.contains_key(key));
        assert(b@.contains_key(key));
        if first.0 {
            assert(array.predecessor().unwrap().cells()[first.1]@.contains_key(key));
            assert(array.predecessor().unwrap().own_entries(h).contains_key(key));
        } else {
            assert(array.cells()[first.1]@.contains_key(key));
            assert(array.own_entries(h).contains_key(key));
        }
        if second.0 {
            assert(array.predecessor().unwrap().cells()[second.1]@.contains_key(key));
            assert(array.predecessor().unwrap().own_entries(h).contains_key(key));
        } else {
            assert(array.cells()[second.1]@.contains_key(key));
            assert(array.own_entries(h).contains_key(key));
        }
    }

    /// Whether `slot` names a slot that holds a visible entry: in the predecessor or not, the
    /// index of the cell, the slot array in the chain of the cell, and the slot in the array.
    pub open spec fn names_slot(&self, slot: (bool, int, int, int)) -> bool {
        let array = self.spec_cell_array();
        &&& slot.0 ==> array.predecessor() is Some && 0 <= slot.1 < array.predecessor().unwrap().cells().len()
        &&& !slot.0 ==> 0 <= slot.1 < array.cells().len()
        &&& array.cell_at(slot.0, slot.1).chain().live_at(slot.2, slot.3)
    }

    /// The key of the entry in a slot.
    pub open spec fn key_at(&self, slot: (bool, int, int, int)) -> K {
        self.spec_cell_array().cell_at(slot.0, slot.1).chain().entry_at(slot.2, slot.3).unwrap().0
    }

    /// Replacing the cell in charge of `key` by one that holds the same entries but for `key`
    /// changes the table at `key` only.
    pub proof fn lemma_owner_replaced(&self, after: &Self, key: K, cell: Cell<K, V>)
        requires
            self.wf(),
            self.with_owner_cell(after, key, cell),
            cell.wf(),
            cell.word() == 0,
            cell.spec_killed() == self.owner_cell(key).spec_killed(),
            cell@.remove(key) == self.owner_cell(key)@.remove(key),
            cell.tags().remove(key) == self.owner_cell(key).tags().remove(key),
            cell@.contains_key(key) ==> cell.tags()[key] == tag_of(partial((self.hash_of())(key))),
        ensures
            after.wf(),
            after@.remove(key) == self@.remove(key),
            after@.contains_key(key) <==> cell@.contains_key(key),
            after@.contains_key(key) ==> after@[key] == cell@[key],
    {
        let h = self.hash_of();
        let array = self.spec_cell_array();
        let next = after.spec_cell_array();
        let i = self.owner(key);
        let before = self.owner_cell(key);
        self.lemma_owner(key);
        assert forall|k: K| #[trigger] cell@.contains_key(k) && k != key implies before@.contains_key(k) && before@[k]
            == cell@[k] && before.tags()[k] == cell.tags()[k] by {
            assert(cell@.remove(key).contains_key(k));
            assert(before@.remove(key).contains_key(k));
            assert(cell@.remove(key)[k] == before@.remove(key)[k]);
            assert(cell.tags().remove(key)[k] == before.tags().remove(key)[k]);
        }
        assert forall|k: K| #[trigger] before@.contains_key(k) && k != key implies cell@.contains_key(k) by {
            assert(before@.remove(key).contains_key(k));
            assert(cell@.remove(key).contains_key(k));
        }
        if self.in_predecessor(key) {
            let pred = array.predecessor().unwrap();
            let pred_after = next.predecessor().unwrap();
            assert(pred.fits(cell, i, h)) by {
                assert forall|k: K| #[trigger] cell@.contains_key(k) implies pred.spec_cell_index(h(k)) == i
                    && cell.tags()[k] == tag_of(partial(h(k))) by {
                    if k != key {
                        assert(before@.contains_key(k));
                    }
                }
            }
            assert(pred_after.cells()[i] == cell);
            pred.lemma_cell_replaced(&pred_after, i, h);
            assert forall|j: int| 0 <= j < next.cursor() implies (#[trigger] pred_after.cells()[j]).spec_killed() by {
                if j != i {
                    assert(pred_after.cells()[j] == pred.cells()[j]);
                }
            }
            assert(next.own_entries(h) =~= array.own_entries(h));
            assert forall|k: K| #[trigger] pred_after.own_entries(h).contains_key(k) implies !next.own_entries(h).contains_key(
                k,
            ) by {
                pred.lemma_cell_index_in_range(h(k));
                if k != key {
                    if pred.spec_cell_index(h(k)) == i {
                        assert(before@.contains_key(k));
                    }
                    assert(pred.own_entries(h).contains_key(k));
                } else {
                    assert(pred.own_entries(h).contains_key(k));
                }
            }
            assert(after@.remove(key) =~= self@.remove(key)) by {
                assert forall|k: K| k != key implies (pred_after.own_entries(h).contains_key(k)
                    <==> pred.own_entries(h).contains_key(k)) by {
                    pred.lemma_cell_index_in_range(h(k));
                }
                assert forall|k: K| k != key && pred.own_entries(h).contains_key(k) implies pred_after.own_entries(h)[k]
                    == pred.own_entries(h)[k] by {
                    pred.lemma_cell_index_in_range(h(k));
                }
            }
        } else {
            assert(array.fits(cell, i, h)) by {
                assert forall|k: K| #[trigger] cell@.contains_key(k) implies array.spec_cell_index(h(k)) == i
                    && cell.tags()[k] == tag_of(partial(h(k))) by {
                    if k != key {
                        assert(before@.contains_key(k));
                    }
                }
            }
            assert(next.cells()[i] == cell);
            array.lemma_cell_replaced(&next, i, h);
            assert forall|j: int| 0 <= j < next.cells().len() implies !(#[trigger] next.cells()[j]).spec_killed() by {
                if j != i {
                    assert(next.cells()[j] == array.cells()[j]);
                }
            }
            if array.predecessor() is Some {
                let pred = array.predecessor().unwrap();
                assert forall|k: K| #[trigger] pred.own_entries(h).contains_key(k) implies !next.own_entries(h).contains_key(
                    k,
                ) by {
                    array.lemma_cell_index_in_range(h(k));
                    if k != key && array.spec_cell_index(h(k)) == i {
                        if cell@.contains_key(k) {
                            assert(before@.contains_key(k));
                        }
                    }
                }
            }
            assert(after@.remove(key) =~= self@.remove(key)) by {
                assert forall|k: K| k != key implies (next.own_entries(h).contains_key(k) <==> array.own_entries(
                    h,
                ).contains_key(k)) by {
                    array.lemma_cell_index_in_range(h(k));
                }
                assert forall|k: K| k != key && array.own_entries(h).contains_key(k) implies next.own_entries(h)[k]
                    == array.own_entries(h)[k] by {
                    array.lemma_cell_index_in_range(h(k));
                }
            }
        }
    }
}


impl<
    K: PartialEq + Send + 'static,
    V: Send + 'static,
    H: Fn(&K) -> u64,
    C: Fn(&K, &V) -> Option<(K, V)>,
    const LOCK_FREE: bool,
> HashTable<K, V, H, C, LOCK_FREE> {
    /// Whether an operation on `key` finds the cell that the hash of the key selects full and
    /// its neighbourhood overloaded, so that the table is to be resized.
    pub open spec fn needs_room(&self, key: K) -> bool {
        let array = self.spec_cell_array();
        let index = array.spec_cell_index((self.hash_of())(key));
        array.cells()[index]@.len() >= ARRAY_SIZE && self.overloaded(index)
    }

    /// Whether `after` is this table with the same directory and the same resize mutex.
    pub open spec fn same_state(&self, after: &Self) -> bool {
        &&& self.same_params(after)
        &&& after.spec_cell_array() == self.spec_cell_array()
        &&& after.spec_resize_mutex() == self.spec_resize_mutex()
    }

    /// What an operation on `key` does for the migration. Without a predecessor it does nothing.
    /// Else it drains the next `UNIT_SIZE` cells of the predecessor, which is let go of once its
    /// last cell has been drained; if the predecessor is still there and the key is not in the
    /// cell that is in charge of it in the predecessor, that cell is drained too. The entries
    /// stay what they are.
    pub open spec fn drains(&self, after: &Self, key: K) -> bool {
        let array = self.spec_cell_array();
        let next = after.spec_cell_array();
        match array.predecessor() {
            None => self.same_state(after),
            Some(previous) => {
                &&& after.wf()
                &&& after@ == self@
                &&& self.same_params(after)
                &&& after.spec_resize_mutex() == self.spec_resize_mutex()
                &&& next.lb() == array.lb()
                &&& next.remaining() == after_rehash(array.remaining())
                &&& next.predecessor() is Some <==> array.remaining() > UNIT_SIZE
                &&& next.predecessor() is Some ==> {
                    &&& next.predecessor().unwrap().lb() == previous.lb()
                    &&& after.in_predecessor(key) || next.predecessor().unwrap().cells()[previous.spec_cell_index(
                        (self.hash_of())(key),
                    )].spec_killed()
                }
            },
        }
    }

    /// What an operation on `key` does for the size of a table that has no predecessor. If the
    /// cell of the key is full and its neighbourhood overloaded, the table is resized, and then
    /// the operation does for the migration what is to be done. Else nothing happens.
    pub open spec fn settles(&self, after: &Self, key: K) -> bool {
        if self.needs_room(key) {
            exists|resized: Self| #[trigger] self.resizes(&resized) && resized.drains(after, key)
        } else {
            self.same_state(after)
        }
    }

    /// What an operation on `key` does before it turns to the cell of the key. With a
    /// predecessor, it helps the migration along; if that lets go of the predecessor, or if
    /// there was none, it looks after the size of the table. The entries stay what they are.
    pub open spec fn prepares(&self, ready: &Self, key: K) -> bool {
        &&& ready.wf()
        &&& ready@ == self@
        &&& self.same_params(ready)
        &&& if self.spec_cell_array().predecessor() is Some {
            exists|drained: Self| #[trigger]
                self.drains(&drained, key) && if drained.spec_cell_array().predecessor() is Some {
                    drained.same_state(ready)
                } else {
                    drained.settles(ready, key)
                }
        } else {
            self.settles(ready, key)
        }
    }

    /// Helps the migration along, as `drains` says.
    fn drain(&mut self, key: &K, hash: u64, guard: &Guard)
        requires
            old(self).wf(),
            hash == (old(self).hash_of())(*key),
        ensures
            final(self).wf(),
            final(self)@ == old(self)@,
            old(self).same_params(final(self)),
            old(self).drains(final(self), *key),
    {
        if self.array.old_array(guard).is_none() {
            return ;
        }
        if self.array.partial_rehash(&self.build_hasher, &self.copier, guard) {
            return ;
        }
        let partial_hash: u8 = partial_hash(hash);
        let (old_index, found): (usize, bool) = match self.array.old_array(guard) {
            Some(previous) => {
                let index: usize = previous.calculate_cell_index(hash);
                (index, previous.cell(index).holds(key, partial_hash, guard))
            },
            None => (0, false),
        };
        proof {
            self.lemma_owner(*key);
        }
        if found {
            return ;
        }
        self.array.kill_cell(old_index, &self.build_hasher, &self.copier, guard);
    }

    /// Gets the table ready for an operation on `key`, as `prepares` says.
    fn locate(&mut self, key: &K, hash: u64, guard: &Guard)
        requires
            old(self).wf(),
            hash == (old(self).hash_of())(*key),
        ensures
            old(self).prepares(final(self), *key),
    {
        if self.array.old_array(guard).is_some() {
            self.drain(key, hash, guard);
            if self.array.old_array(guard).is_some() {
                return ;
            }
        }
        let ghost drained = *self;
        let cell_index: usize = self.array.calculate_cell_index(hash);
        if self.array.cell(cell_index).holds_at_least(ARRAY_SIZE) {
            self.try_enlarge(cell_index, guard);
            let ghost resized = *self;
            self.drain(key, hash, guard);
            proof {
                if drained.needs_room(*key) {
                    assert(drained.resizes(&resized) && resized.drains(self, *key));
                }
            }
        }
        proof {
            assert(drained.settles(self, *key));
            if old(self).spec_cell_array().predecessor() is Some {
                assert(old(self).drains(&drained, *key));
            }
        }
    }

    /// What `acquire` hands out. The table has been made ready for an operation on `key`: that
    /// is the table `ready`. The lock is held on the cell that
    /// is in charge of the key in it, and the slot of the key in that cell is named if the key is
    /// in the table. When the lock is let go of, the table is `ready` with that cell as the
    /// holder of the lock has left it.
    pub open spec fn acquires(
        &self,
        ready: &Self,
        after: &Self,
        key: K,
        cell_index: int,
        cell: Cell<K, V>,
        left: Cell<K, V>,
        found: Option<EntryIterator>,
    ) -> bool {
        &&& self.prepares(ready, key)
        &&& cell_index == ready.owner(key)
        &&& cell.chain() == ready.owner_cell(key).chain()
        &&& cell.spec_locked()
        &&& cell.waiters() == 0
        &&& found is Some <==> self@.contains_key(key)
        &&& found is Some ==> found.unwrap().position() == cell.chain().positions()[key]
        &&& ready.with_owner_cell(after, key, left)
    }

    /// Acquires the lock of the cell that is in charge of `key`, and finds the key in it. Not
    /// finding the key means that the key is not in the table. The table is well-formed again
    /// once the lock has been released.
    pub fn acquire(&mut self, key: &K, hash: u64, partial_hash: u8, guard: &Guard) -> (acquired: (
        usize,
        CellLocker<'_, K, V>,
        Option<EntryIterator>,
    ))
        requires
            old(self).wf(),
            hash == (old(self).hash_of())(*key),
            partial_hash == partial(hash),
        ensures
            exists|ready: Self| #[trigger]
                old(self).acquires(
                    &ready,
                    final(self),
                    *key,
                    acquired.0 as int,
                    *acquired.1.cell_ref,
                    *final(acquired.1.cell_ref),
                    acquired.2,
                ),
    {
        self.locate(key, hash, guard);
        self.lock_owner(Ghost(*old(self)), key, hash, partial_hash, guard)
    }

    /// Locks the cell that is in charge of `key` in a table that is ready for an operation on the
    /// key, and finds the key in it.
    fn lock_owner(
        &mut self,
        Ghost(first): Ghost<Self>,
        key: &K,
        hash: u64,
        partial_hash: u8,
        guard: &Guard,
    ) -> (acquired: (usize, CellLocker<'_, K, V>, Option<EntryIterator>))
        requires
            first.prepares(old(self), *key),
            hash == (old(self).hash_of())(*key),
            partial_hash == partial(hash),
        ensures
            first.acquires(
                old(self),
                final(self),
                *key,
                acquired.0 as int,
                *acquired.1.cell_ref,
                *final(acquired.1.cell_ref),
                acquired.2,
            ),
    {
        let in_old: bool = match self.array.old_array(guard) {
            Some(previous) => {
                let index: usize = previous.calculate_cell_index(hash);
                previous.cell(index).holds(key, partial_hash, guard)
            },
            None => false,
        };
        let cell_index: usize = if in_old {
            match self.array.old_array(guard) {
                Some(previous) => previous.calculate_cell_index(hash),
                None => 0,
            }
        } else {
            self.array.calculate_cell_index(hash)
        };
        proof {
            self.lemma_owner(*key);
            if self.spec_cell_array().predecessor() is Some {
                self.spec_cell_array().predecessor().unwrap().lemma_cell_index_in_range(hash);
            }
        }
        let cell = self.array.cell_mut(in_old, cell_index);
        match CellLocker::try_lock(cell, guard) {
            Some(locker) => {
                let found = locker.cell_ref().get(key, partial_hash, guard);
                (cell_index, locker, found)
            },
            None => {
                proof {
                    assert(false);
                }
                unreached()
            },
        }
    }
}


impl<
    K: PartialEq + Send + 'static,
    V: Send + 'static,
    H: Fn(&K) -> u64,
    C: Fn(&K, &V) -> Option<(K, V)>,
    const LOCK_FREE: bool,
> HashTable<K, V, H, C, LOCK_FREE> {
    /// The cell of `after` at the place of the cell that is in charge of `key` in this table.
    pub open spec fn successor_cell(&self, after: &Self, key: K) -> Cell<K, V> {
        after.spec_cell_array().cell_at(self.in_predecessor(key), self.owner(key))
    }

    /// What an insertion does to a table that is ready for it: nothing but to the cell that is
    /// in charge of the key. If the key is in the table, that cell stays as it is, too, and the
    /// pair comes back. Else the entry is inserted into the cell as the cell inserts it.
    pub open spec fn puts(&self, after: &Self, key: K, val: V, result: Result<(), (K, V)>) -> bool {
        let cell = self.owner_cell(key);
        let left = self.successor_cell(after, key);
        &&& self.with_owner_cell(after, key, left)
        &&& left.word() == 0
        &&& if self@.contains_key(key) {
            result == Err::<(), (K, V)>((key, val)) && left.chain() == cell.chain()
        } else {
            result == Ok::<(), (K, V)>(()) && cell.chain().inserts(
                &left.chain(),
                key,
                val,
                partial((self.hash_of())(key)),
                result,
            )
        }
    }

    /// What `insert_entry` does: it gets the table ready for the key, and then inserts.
    pub open spec fn inserts(&self, after: &Self, key: K, val: V, result: Result<(), (K, V)>) -> bool {
        exists|ready: Self| #[trigger] self.prepares(&ready, key) && ready.puts(after, key, val, result)
    }

    /// Inserts an entry into the table. If the key is in the table already, the entries stay as
    /// they are and the pair comes back.
    pub fn insert_entry(&mut self, key: K, val: V) -> (result: Result<(), (K, V)>)
        requires
            old(self).wf(),
        ensures
            final(self).wf(),
            old(self).same_params(final(self)),
            (final(self)@, result) == insertion(old(self)@, key, val),
            old(self).inserts(final(self), key, val, result),
    {
        let (hash, partial_hash): (u64, u8) = self.hash(&key);
        let guard = crossbeam_epoch::pin();
        let mut frames = WaitFrames::new();
        let (cell_index, mut locker, iterator) = self.acquire(&key, hash, partial_hash, &guard);
        let ghost locked = *locker.cell_ref;
        let ghost left = *final(locker.cell_ref);
        if iterator.is_some() {
            locker.release(&mut frames, &guard);
            proof {
                let ready = choose|ready: Self| #[trigger]
                    old(self).acquires(&ready, self, key, cell_index as int, locked, left, iterator);
                ready.lemma_owner(key);
                ready.owner_cell(key).lemma_parts(&left);
                ready.lemma_owner_replaced(self, key, left);
                assert(self@ =~= ready@.remove(key).insert(key, ready@[key]));
                assert(ready@ =~= ready@.remove(key).insert(key, ready@[key]));
                assert(ready.successor_cell(self, key) == left);
                assert(old(self).prepares(&ready, key) && ready.puts(self, key, val, Err::<(), (K, V)>((key, val))));
            }
            return Err((key, val));
        }
        proof {
            let (ready, after) = choose|ready: Self, after: Self| #[trigger]
                old(self).acquires(&ready, &after, key, cell_index as int, locked, left, iterator);
            ready.lemma_owner(key);
            locked.chain().lemma_views();
        }
        let inserted = locker.insert(key, val, partial_hash, &guard);
        locker.release(&mut frames, &guard);
        proof {
            let ready = choose|ready: Self| #[trigger]
                old(self).acquires(&ready, self, key, cell_index as int, locked, left, iterator);
            ready.lemma_owner(key);
            assert(inserted is Ok);
            assert(left@.remove(key) =~= ready.owner_cell(key)@.remove(key));
            assert(left.tags().remove(key) =~= ready.owner_cell(key).tags().remove(key));
            ready.lemma_owner_replaced(self, key, left);
            assert(self@ =~= self@.remove(key).insert(key, val));
            assert(ready@.insert(key, val) =~= ready@.remove(key).insert(key, val));
            assert(ready.successor_cell(self, key) == left);
            assert(old(self).prepares(&ready, key) && ready.puts(self, key, val, Ok::<(), (K, V)>(())));
        }
        Ok(())
    }
}


impl<
    K: PartialEq + Send + 'static,
    V: Send + 'static,
    H: Fn(&K) -> u64,
    C: Fn(&K, &V) -> Option<(K, V)>,
    const LOCK_FREE: bool,
> HashTable<K, V, H, C, LOCK_FREE> {
    /// What a removal does to a table that is ready for it: nothing but to the cell that is in
    /// charge of the key. The entry leaves the cell if it is to be removed, and it leaves in the
    /// way of the flavour: its slot is marked as removed, or it is vacant again.
    pub open spec fn takes(&self, after: &Self, key: K, removed: bool) -> bool {
        let cell = self.owner_cell(key);
        let left = self.successor_cell(after, key);
        let place = cell.chain().positions()[key];
        &&& self.with_owner_cell(after, key, left)
        &&& left.word() == 0
        &&& if removed {
            &&& left.chain().removed_from(&cell.chain(), place.0, place.1)
            &&& left.chain().tag_at(place.0, place.1) == if LOCK_FREE {
                (cell.chain().tag_at(place.0, place.1) + 128) as u8
            } else {
                0u8
            }
        } else {
            left.chain() == cell.chain()
        }
    }

    /// What `try_shrink` does for the key of a removal: a table that is larger than its minimum
    /// capacity is resized if the neighbourhood of the cell of the key is underloaded.
    pub open spec fn shrinks(&self, after: &Self, cell_index: int) -> bool {
        if self.spec_cell_array().cells().len() * ARRAY_SIZE > self.spec_minimum_capacity() && self.underloaded(
            cell_index,
        ) {
            self.resizes(after)
        } else {
            self.same_state(after)
        }
    }

    /// What `remove_if` does: it gets the table ready for the key, removes the entry if it is to
    /// be removed, and after a removal gives the table the chance to shrink.
    pub open spec fn removes(&self, after: &Self, key: K, removed: bool) -> bool {
        exists|ready: Self, taken: Self| #[trigger]
            self.prepares(&ready, key) && #[trigger] ready.takes(&taken, key, removed) && if removed {
                taken.shrinks(after, taken.spec_cell_array().spec_cell_index((self.hash_of())(key)))
            } else {
                taken.same_state(after)
            }
    }

    /// Removes the entry of `key` if it is in the table and `condition` holds of its value. The
    /// read-optimised flavour marks the slot as removed; the other flavour takes the entry out
    /// of its slot. After a removal the table is given the chance to shrink.
    pub fn remove_if<F: FnOnce(&V) -> bool>(&mut self, key: &K, condition: F) -> (removed: bool)
        requires
            old(self).wf(),
            old(self)@.contains_key(*key) ==> call_requires(condition, (&old(self)@[*key],)),
        ensures
            final(self).wf(),
            old(self).same_params(final(self)),
            old(self)@.contains_key(*key) ==> call_ensures(condition, (&old(self)@[*key],), removed),
            (final(self)@, removed) == removal(old(self)@, *key, removed),
            old(self).removes(final(self), *key, removed),
    {
        let (hash, partial_hash): (u64, u8) = self.hash(key);
        let guard = crossbeam_epoch::pin();
        let mut frames = WaitFrames::new();
        let (cell_index, mut locker, iterator) = self.acquire(key, hash, partial_hash, &guard);
        let ghost locked = *locker.cell_ref;
        let ghost left = *final(locker.cell_ref);
        proof {
            let (ready, after) = choose|ready: Self, after: Self| #[trigger]
                old(self).acquires(&ready, &after, *key, cell_index as int, locked, left, iterator);
            ready.lemma_owner(*key);
            locked.chain().lemma_views();
        }
        let removed: bool = match iterator {
            Some(place) => {
                let holds: bool = {
                    let entry = locker.cell_ref().entry(&place);
                    condition(&entry.1)
                };
                if holds {
                    if LOCK_FREE {
                        locker.mark_removed(&place);
                    } else {
                        let _entry: (K, V) = locker.erase(&place);
                    }
                }
                holds
            },
            None => false,
        };
        locker.release(&mut frames, &guard);
        proof {
            let ready = choose|ready: Self| #[trigger]
                old(self).acquires(&ready, self, *key, cell_index as int, locked, left, iterator);
            ready.lemma_owner(*key);
            if removed {
                assert(left@ =~= ready.owner_cell(*key)@.remove(*key));
                assert(left@.remove(*key) =~= ready.owner_cell(*key)@.remove(*key));
                assert(left.tags().remove(*key) =~= ready.owner_cell(*key).tags().remove(*key));
                ready.lemma_owner_replaced(self, *key, left);
                assert(self@ =~= self@.remove(*key));
            } else {
                ready.owner_cell(*key).lemma_parts(&left);
                ready.lemma_owner_replaced(self, *key, left);
                if old(self)@.contains_key(*key) {
                    assert(self@ =~= ready@.remove(*key).insert(*key, ready@[*key]));
                    assert(ready@ =~= ready@.remove(*key).insert(*key, ready@[*key]));
                } else {
                    assert(self@ =~= self@.remove(*key));
                    assert(ready@ =~= ready@.remove(*key));
                }
            }
        }
        let ghost taken = *self;
        if removed {
            let current: usize = self.array.calculate_cell_index(hash);
            self.try_shrink(current, &guard);
        }
        proof {
            let ready = choose|ready: Self| #[trigger]
                old(self).acquires(&ready, &taken, *key, cell_index as int, locked, left, iterator);
            assert(ready.successor_cell(&taken, *key) == left);
            locked.chain().lemma_views();
            assert(old(self).prepares(&ready, *key) && ready.takes(&taken, *key, removed));
        }
        removed
    }

    /// Reads the entry of `key` in one cell, under the lock of the cell unless the table is of
    /// the read-optimised flavour. The reader comes back if the key is not in the cell.
    fn read_cell<R, F: FnOnce(&K, &V) -> R>(
        &mut self,
        in_old: bool,
        cell_index: usize,
        key: &K,
        partial_hash: u8,
        reader: F,
        guard: &Guard,
    ) -> (read: Result<R, F>)
        requires
            old(self).wf(),
            in_old ==> old(self).spec_cell_array().predecessor() is Some && cell_index < old(
                self,
            ).spec_cell_array().predecessor().unwrap().cells().len(),
            !in_old ==> cell_index < old(self).spec_cell_array().cells().len(),
            ({
                let cell = old(self).spec_cell_array().cell_at(in_old, cell_index as int);
                cell@.contains_key(*key) ==> call_requires(reader, (key, &cell@[*key]))
            }),
        ensures
            final(self).wf(),
            final(self)@ == old(self)@,
            old(self).same_params(final(self)),
            final(self).spec_resize_mutex() == old(self).spec_resize_mutex(),
            old(self).spec_cell_array().same_cells(&final(self).spec_cell_array()),
            ({
                let cell = old(self).spec_cell_array().cell_at(in_old, cell_index as int);
                &&& read is Ok <==> cell@.contains_key(*key) && cell.tags()[*key] == tag_of(partial_hash)
                &&& read matches Ok(value) ==> call_ensures(reader, (key, &cell@[*key]), value)
                &&& read matches Err(unused) ==> unused == reader
            }),
    {
        if LOCK_FREE {
            let cell = if in_old {
                match self.array.old_array(guard) {
                    Some(previous) => previous.cell(cell_index),
                    None => self.array.cell(cell_index),
                }
            } else {
                self.array.cell(cell_index)
            };
            match cell.search(key, partial_hash, guard) {
                Some(entry) => Ok(reader(&entry.0, &entry.1)),
                None => Err(reader),
            }
        } else {
            let mut frames = WaitFrames::new();
            let ghost h = self.hash_of();
            let cell = self.array.cell_mut(in_old, cell_index);
            let ghost first = *cell;
            match CellLocker::try_lock(cell, guard) {
                Some(locker) => {
                    let read = match locker.cell_ref().search(key, partial_hash, guard) {
                        Some(entry) => Ok(reader(&entry.0, &entry.1)),
                        None => Err(reader),
                    };
                    locker.release(&mut frames, guard);
                    proof {
                        let array = old(self).spec_cell_array();
                        let next = self.spec_cell_array();
                        let last = next.cell_at(in_old, cell_index as int);
                        first.lemma_parts(&last);
                        if in_old {
                            assert(next.predecessor().unwrap().cells() =~= array.predecessor().unwrap().cells());
                            assert(next.predecessor().unwrap().own_entries(h) =~= array.predecessor().unwrap().own_entries(
                                h,
                            ));
                        } else {
                            assert(next.cells() =~= array.cells());
                        }
                        assert(next.own_entries(h) =~= array.own_entries(h));
                    }
                    read
                },
                None => {
                    proof {
                        assert(false);
                    }
                    Err(reader)
                },
            }
        }
    }

    /// What a read does for the migration. Without a predecessor the cells stay as they are.
    /// Else the next `UNIT_SIZE` cells of the predecessor are drained, and the predecessor is let
    /// go of once its last cell has been drained. The directory is not resized.
    pub open spec fn helps(&self, after: &Self) -> bool {
        let array = self.spec_cell_array();
        let next = after.spec_cell_array();
        &&& self.same_params(after)
        &&& after.spec_resize_mutex() == self.spec_resize_mutex()
        &&& next.lb() == array.lb()
        &&& match array.predecessor() {
            None => array.same_cells(&next),
            Some(previous) => {
                &&& next.remaining() == after_rehash(array.remaining())
                &&& next.predecessor() is Some <==> array.remaining() > UNIT_SIZE
                &&& next.predecessor() is Some ==> next.predecessor().unwrap().lb() == previous.lb()
            },
        }
    }

    /// Reads the entry of `key`: first in the predecessor, if there is one after a part of it has
    /// been drained, then in the directory.
    pub fn read_entry<R, F: FnOnce(&K, &V) -> R>(&mut self, key: &K, reader: F, guard: &Guard) -> (read: Option<R>)
        requires
            old(self).wf(),
            old(self)@.contains_key(*key) ==> call_requires(reader, (key, &old(self)@[*key])),
        ensures
            final(self).wf(),
            final(self)@ == old(self)@,
            old(self).same_params(final(self)),
            old(self).helps(final(self)),
            read is Some <==> lookup(old(self)@, *key) is Some,
            read matches Some(value) ==> call_ensures(reader, (key, &lookup(old(self)@, *key).unwrap()), value),
    {
        let (hash, partial_hash): (u64, u8) = self.hash(key);
        let mut reader = reader;
        if self.array.old_array(guard).is_some() {
            if !self.array.partial_rehash(&self.build_hasher, &self.copier, guard) {
                let old_index: usize = match self.array.old_array(guard) {
                    Some(previous) => previous.calculate_cell_index(hash),
                    None => 0,
                };
                proof {
                    self.lemma_owner(*key);
                    self.spec_cell_array().predecessor().unwrap().lemma_cell_index_in_range(hash);
                }
                match self.read_cell(true, old_index, key, partial_hash, reader, guard) {
                    Ok(value) => {
                        return Some(value);
                    },
                    Err(unused) => {
                        reader = unused;
                    },
                }
            }
        }
        let cell_index: usize = self.array.calculate_cell_index(hash);
        proof {
            self.lemma_owner(*key);
        }
        match self.read_cell(false, cell_index, key, partial_hash, reader, guard) {
            Ok(value) => Some(value),
            Err(_) => None,
        }
    }
}

} // verus!
