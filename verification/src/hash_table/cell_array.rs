//! The directory: a power-of-two array of cells, with the predecessor that it is draining.
//!
//! A hash selects a cell by its high-order bits, so the bits that make up the partial hash do
//! not correlate with the choice of the cell. While a directory has a predecessor, every entry
//! lives either in the cell that its hash selects in the predecessor or in the cell that its
//! hash selects in the directory itself, never in both.

use crate::ebr::retire;
use crate::hashindex::cell::{
    is_copier, lemma_partitions_adopted, lemma_partitions_done, lists, partitions, tag_of, Cell, CellLocker,
    ARRAY_SIZE,
};
use crate::wait_queue::WaitFrames;
use crossbeam_epoch::Guard;
use vstd::arithmetic::power2::{lemma_pow2_pos, lemma_pow2_strictly_increases, lemma_pow2_unfold, pow2};
use vstd::bits::lemma_u64_shr_is_div;
use vstd::laws_eq::obeys_concrete_eq;
use vstd::prelude::*;
use vstd::set_lib::lemma_set_disjoint_lens;

verus! {

/// A count, as far as a `usize` can tell it.
pub open spec fn cap(n: nat) -> usize {
    if n <= usize::MAX {
        n as usize
    } else {
        usize::MAX
    }
}

/// The sum of two counts, as far as a `usize` can tell it.
pub fn saturating_add(a: usize, b: usize) -> (sum: usize)
    ensures
        sum == cap((a + b) as nat),
{
    if a > usize::MAX - b {
        usize::MAX
    } else {
        a + b
    }
}

/// The product of two counts, as far as a `usize` can tell it.
pub fn saturating_mul(a: usize, b: usize) -> (product: usize)
    ensures
        product == cap((a * b) as nat),
{
    if a == 0 || b == 0 {
        assert(a * b == 0) by (nonlinear_arith)
            requires
                a == 0 || b == 0,
        ;
        0
    } else if a > usize::MAX / b {
        assert(a * b > usize::MAX) by (nonlinear_arith)
            requires
                b > 0,
                a > usize::MAX / b,
        ;
        usize::MAX
    } else {
        assert(a * b <= usize::MAX) by (nonlinear_arith)
            requires
                b > 0,
                a <= usize::MAX / b,
        ;
        a * b
    }
}

/// The partial hash of a hash: its low eight bits.
pub open spec fn partial(hash: u64) -> u8 {
    (hash % 256) as u8
}

/// The low eight bits of a hash.
pub fn partial_hash(hash: u64) -> (partial_hash: u8)
    ensures
        partial_hash == partial(hash),
{
    let low: u64 = hash & 255;
    assert(hash & 255 == hash % 256) by (bit_vector);
    low as u8
}

/// Whether `hasher` can be called on every key and gives each key one hash.
pub open spec fn is_hasher<K, H: Fn(&K) -> u64>(hasher: H) -> bool {
    &&& forall|k: K| call_requires(hasher, (&k,))
    &&& forall|k: K, a: u64, b: u64| call_ensures(hasher, (&k,), a) && call_ensures(hasher, (&k,), b) ==> a == b
}

/// The function that `hasher` computes.
pub open spec fn hash_fn<K, H: Fn(&K) -> u64>(hasher: H) -> spec_fn(K) -> u64 {
    |k: K| choose|hash: u64| call_ensures(hasher, (&k,), hash)
}

/// The number of cells of the predecessor that one call of `partial_rehash` drains.
pub const UNIT_SIZE: usize = 16;

/// How many cells of a predecessor are left to be drained after one call of `partial_rehash`,
/// given how many were left before it.
pub open spec fn after_rehash(remaining: nat) -> nat {
    if remaining > UNIT_SIZE {
        (remaining - UNIT_SIZE) as nat
    } else {
        0
    }
}

/// How many cells of a predecessor are left to be drained after a number of calls of
/// `partial_rehash`.
pub open spec fn after_rehashes(remaining: nat, calls: nat) -> nat
    decreases calls,
{
    if calls == 0 {
        remaining
    } else {
        after_rehash(after_rehashes(remaining, (calls - 1) as nat))
    }
}

/// Every migration ends: once `partial_rehash` has been called often enough, no cell of the
/// predecessor is left to be drained, which means that the predecessor has been let go of.
pub proof fn law_migration_ends(remaining: nat, calls: nat)
    requires
        calls * UNIT_SIZE >= remaining,
    ensures
        after_rehashes(remaining, calls) == 0,
{
    lemma_rehashes(remaining, calls);
}

/// Each call of `partial_rehash` takes `UNIT_SIZE` cells off what is left, as long as there is
/// that much.
proof fn lemma_rehashes(remaining: nat, calls: nat)
    ensures
        after_rehashes(remaining, calls) == if remaining > calls * UNIT_SIZE {
            (remaining - calls * UNIT_SIZE) as nat
        } else {
            0
        },
    decreases calls,
{
    if calls > 0 {
        lemma_rehashes(remaining, (calls - 1) as nat);
        assert((calls - 1) * UNIT_SIZE + UNIT_SIZE == calls * UNIT_SIZE) by (nonlinear_arith);
    }
}

/// A directory of cells.
#[verifier::reject_recursive_types(K)]
pub struct CellArray<K, V> {
    cells: Vec<Cell<K, V>>,
    /// The binary logarithm of the number of cells.
    lb_capacity: u32,
    old_array: Option<Box<CellArray<K, V>>>,
    /// The number of cells at the front of the predecessor that have been drained in order.
    rehashing: usize,
}

impl<K, V> CellArray<K, V> {
    /// The cells.
    pub closed spec fn cells(&self) -> Seq<Cell<K, V>> {
        self.cells@
    }

    /// The binary logarithm of the number of cells.
    pub closed spec fn lb(&self) -> nat {
        self.lb_capacity as nat
    }

    /// The directory that is being drained into this one, if there is one.
    pub closed spec fn predecessor(&self) -> Option<CellArray<K, V>> {
        match self.old_array {
            Some(old) => Some(*old),
            None => None,
        }
    }

    /// The number of cells at the front of the predecessor that have been drained in order.
    pub closed spec fn cursor(&self) -> nat {
        self.rehashing as nat
    }

    /// The cell that a hash selects: the number made of the `lb` high-order bits of the hash.
    pub open spec fn spec_cell_index(&self, hash: u64) -> int {
        hash as int / pow2((64 - self.lb()) as nat) as int
    }

    /// The shape of one directory: a power of two of cells, at least two, each well-formed and
    /// neither locked nor waited for.
    pub open spec fn wf_cells(&self) -> bool {
        &&& 1 <= self.lb() <= 63
        &&& self.cells().len() == pow2(self.lb())
        &&& self.cells().len() * 16 <= usize::MAX
        &&& forall|i: int|
            0 <= i < self.cells().len() ==> (#[trigger] self.cells()[i]).wf() && self.cells()[i].word() == 0
    }

    /// The invariant of a directory. Its own cells are alive. Its predecessor, if it has one, has
    /// no predecessor itself, and the cells of the predecessor below the cursor have been killed.
    pub open spec fn wf(&self) -> bool {
        &&& self.wf_cells()
        &&& forall|i: int| 0 <= i < self.cells().len() ==> !(#[trigger] self.cells()[i]).spec_killed()
        &&& match self.predecessor() {
            Some(old) => {
                &&& old.wf_cells()
                &&& old.predecessor() is None
                &&& old.cursor() == 0
                &&& self.cursor() < old.cells().len()
                &&& forall|i: int| 0 <= i < self.cursor() ==> (#[trigger] old.cells()[i]).spec_killed()
            },
            None => self.cursor() == 0,
        }
    }

    /// Whether every visible key sits in the cell that its hash selects, under the tag of its
    /// hash.
    pub open spec fn placed(&self, h: spec_fn(K) -> u64) -> bool {
        forall|i: int, k: K|
            0 <= i < self.cells().len() && #[trigger] self.cells()[i]@.contains_key(k) ==> self.spec_cell_index(
                h(k),
            ) == i && self.cells()[i].tags()[k] == tag_of(partial(h(k)))
    }

    /// The entries that the cells of this directory hold, its predecessor left aside.
    pub open spec fn own_entries(&self, h: spec_fn(K) -> u64) -> Map<K, V> {
        Map::new(
            |k: K| self.cells()[self.spec_cell_index(h(k))]@.contains_key(k),
            |k: K| self.cells()[self.spec_cell_index(h(k))]@[k],
        )
    }

    /// The entries of the directory and of its predecessor.
    pub open spec fn entries(&self, h: spec_fn(K) -> u64) -> Map<K, V> {
        match self.predecessor() {
            Some(old) => self.own_entries(h).union_prefer_right(old.own_entries(h)),
            None => self.own_entries(h),
        }
    }

    /// The invariant of a directory under a hash function: it is well-formed, every key is where
    /// its hash puts it, and no key is visible both in the directory and in its predecessor.
    pub open spec fn inv(&self, h: spec_fn(K) -> u64) -> bool {
        &&& self.wf()
        &&& self.placed(h)
        &&& match self.predecessor() {
            Some(old) => {
                &&& old.placed(h)
                &&& forall|k: K| #[trigger] old.own_entries(h).contains_key(k) ==> !self.own_entries(h).contains_key(k)
            },
            None => true,
        }
    }

    /// The number of cells of the predecessor that have not been drained in order yet; 0 without
    /// a predecessor.
    pub open spec fn remaining(&self) -> nat {
        match self.predecessor() {
            Some(old) => (old.cells().len() - self.cursor()) as nat,
            None => 0,
        }
    }

    /// A well-formed directory has a predecessor exactly as long as cells of it are left to be
    /// drained: when none is left, the migration has ended.
    pub proof fn law_predecessor_gone(&self)
        requires
            self.wf(),
        ensures
            self.remaining() == 0 <==> self.predecessor() is None,
    {
    }

    /// Whether `other` has the same cells as this directory, and its predecessor the same as
    /// the predecessor of this directory.
    pub open spec fn same_cells(&self, other: &Self) -> bool {
        &&& other.cells() == self.cells()
        &&& other.lb() == self.lb()
        &&& other.cursor() == self.cursor()
        &&& other.predecessor() is Some <==> self.predecessor() is Some
        &&& self.predecessor() is Some ==> {
            &&& other.predecessor().unwrap().cells() == self.predecessor().unwrap().cells()
            &&& other.predecessor().unwrap().lb() == self.predecessor().unwrap().lb()
            &&& other.predecessor().unwrap().cursor() == self.predecessor().unwrap().cursor()
            &&& other.predecessor().unwrap().predecessor() is None <==> self.predecessor().unwrap().predecessor() is None
        }
    }

    /// Whether `after` is this directory with the cell at `i` replaced by `cell`.
    pub open spec fn replaced(&self, after: &Self, i: int, cell: Cell<K, V>) -> bool {
        &&& 0 <= i < self.cells().len()
        &&& after.cells() == self.cells().update(i, cell)
        &&& after.lb() == self.lb()
        &&& after.predecessor() == self.predecessor()
        &&& after.cursor() == self.cursor()
    }

    /// Whether `after` is this directory with the cell at `i` of its predecessor replaced by
    /// `cell`.
    pub open spec fn old_replaced(&self, after: &Self, i: int, cell: Cell<K, V>) -> bool {
        &&& after.cells() == self.cells()
        &&& after.lb() == self.lb()
        &&& after.cursor() == self.cursor()
        &&& self.predecessor() is Some
        &&& after.predecessor() is Some
        &&& self.predecessor().unwrap().replaced(&after.predecessor().unwrap(), i, cell)
    }

    /// A hash selects one of the cells.
    pub proof fn lemma_cell_index_in_range(&self, hash: u64)
        requires
            self.wf_cells(),
        ensures
            0 <= self.spec_cell_index(hash) < self.cells().len(),
    {
        let low = (64 - self.lb()) as nat;
        lemma_pow2_pos(low);
        vstd::arithmetic::power2::lemma_pow2_adds(self.lb(), low);
        vstd::arithmetic::power2::lemma2_to64();
        let d = pow2(low) as int;
        let n = pow2(self.lb()) as int;
        assert(n * d == 0x10000000000000000);
        assert(hash as int / d < n) by (nonlinear_arith)
            requires
                0 <= hash as int,
                (hash as int) < n * d,
                d > 0,
        ;
        assert(0 <= hash as int / d) by (nonlinear_arith)
            requires
                0 <= hash as int,
                d > 0,
        ;
    }

    /// The number of cells.
    pub fn num_cells(&self) -> (n: usize)
        ensures
            n == self.cells().len(),
    {
        self.cells.len()
    }

    /// The number of slots in the first slot arrays of all cells: the capacity.
    pub fn num_entries(&self) -> (n: usize)
        requires
            self.wf_cells(),
        ensures
            n == self.cells().len() * ARRAY_SIZE,
    {
        self.cells.len() * ARRAY_SIZE
    }

    /// The number of cells that are read to judge the load of the neighbourhood of a cell: the
    /// binary logarithm of the number of cells, but at least 2 and at most 4096.
    pub fn sample_size(&self) -> (n: usize)
        requires
            self.wf_cells(),
        ensures
            n == if self.lb() < 2 {
                2
            } else {
                self.lb() as int
            },
            2 <= n <= 4096,
            n <= self.cells().len(),
    {
        proof {
            lemma_pow2_at_least(self.lb());
        }
        let lb: usize = self.lb_capacity as usize;
        if lb < 2 {
            2
        } else {
            lb
        }
    }

    /// The cell at the given index.
    pub fn cell(&self, index: usize) -> (cell: &Cell<K, V>)
        requires
            index < self.cells().len(),
        ensures
            *cell == self.cells()[index as int],
    {
        &self.cells[index]
    }

    /// The cell that the given hash selects.
    pub fn calculate_cell_index(&self, hash: u64) -> (index: usize)
        requires
            self.wf_cells(),
        ensures
            index == self.spec_cell_index(hash),
            index < self.cells().len(),
    {
        let shift: u32 = 64 - self.lb_capacity;
        proof {
            self.lemma_cell_index_in_range(hash);
            lemma_u64_shr_is_div(hash, shift as u64);
        }
        let index: u64 = hash >> shift;
        index as usize
    }

    /// The predecessor, if there is one.
    pub fn old_array(&self, _guard: &Guard) -> (old: Option<&CellArray<K, V>>)
        ensures
            old is Some <==> self.predecessor() is Some,
            old is Some ==> *old.unwrap() == self.predecessor().unwrap(),
    {
        match &self.old_array {
            Some(previous) => Some(&**previous),
            None => None,
        }
    }
}

impl<K: PartialEq, V> CellArray<K, V> {
    /// A directory with room for `capacity` entries in the first slot arrays of its cells, as far
    /// as the address space allows: the smallest power of two of cells, at least two, that gives
    /// that room. The directory drains `old_array`.
    pub fn new(capacity: usize, old_array: Option<Box<CellArray<K, V>>>) -> (array: Self)
        ensures
            array.wf_cells(),
            array.predecessor() == match old_array {
                Some(old) => Some(*old),
                None => None,
            },
            array.cursor() == 0,
            forall|i: int|
                0 <= i < array.cells().len() ==> (#[trigger] array.cells()[i])@ == Map::<K, V>::empty()
                    && !array.cells()[i].spec_killed(),
            array.sized_for(capacity),
            array.cells().len() >= 2,
    {
        let mut lb: u32 = 1;
        let mut n: usize = 2;
        proof {
            vstd::arithmetic::power2::lemma2_to64();
        }
        while n * 16 < capacity && n <= usize::MAX / 32
            invariant
                1 <= lb <= 63,
                n == pow2(lb as nat),
                n >= 2,
                n * 16 <= usize::MAX,
                lb > 1 ==> n / 2 * 16 < capacity,
            decreases usize::MAX - n,
        {
            proof {
                lemma_pow2_unfold((lb + 1) as nat);
                if lb == 63 {
                    vstd::arithmetic::power2::lemma2_to64();
                    lemma_pow2_strictly_increases(32, 63);
                    assert(false);
                }
            }
            n = n * 2;
            lb = lb + 1;
        }
        let mut cells: Vec<Cell<K, V>> = Vec::new();
        let mut i: usize = 0;
        while i < n
            invariant
                i <= n,
                cells@.len() == i,
                forall|j: int|
                    0 <= j < i ==> (#[trigger] cells@[j]).wf() && cells@[j].word() == 0 && cells@[j]@ == Map::<
                        K,
                        V,
                    >::empty() && !cells@[j].spec_killed(),
            decreases n - i,
        {
            cells.push(Cell::new());
            i += 1;
        }
        CellArray { cells, lb_capacity: lb, old_array, rehashing: 0 }
    }
}

/// The hash that `hasher` gave for a key is the hash of the key.
pub proof fn lemma_hash<K, H: Fn(&K) -> u64>(hasher: H, key: K, hash: u64)
    requires
        is_hasher(hasher),
        call_ensures(hasher, (&key,), hash),
    ensures
        hash_fn(hasher)(key) == hash,
{
}

impl<K, V> CellArray<K, V> {
    /// Whether `cell` holds only keys whose hash selects the cell at `i`, each under the tag of
    /// its hash.
    pub open spec fn fits(&self, cell: Cell<K, V>, i: int, h: spec_fn(K) -> u64) -> bool {
        forall|k: K| #[trigger]
            cell@.contains_key(k) ==> self.spec_cell_index(h(k)) == i && cell.tags()[k] == tag_of(partial(h(k)))
    }

    /// What the replacement of one cell does to the entries of a directory: keys that belong to
    /// other cells are where they were, and keys that belong to the cell are what it holds.
    pub proof fn lemma_cell_replaced(&self, after: &Self, i: int, h: spec_fn(K) -> u64)
        requires
            self.wf_cells(),
            self.placed(h),
            self.replaced(after, i, after.cells()[i]),
            after.cells()[i].wf(),
            after.cells()[i].word() == 0,
            self.fits(after.cells()[i], i, h),
        ensures
            after.wf_cells(),
            after.placed(h),
            forall|k: K|
                self.spec_cell_index(h(k)) != i ==> (#[trigger] after.own_entries(h).contains_key(k)
                    <==> self.own_entries(h).contains_key(k)),
            forall|k: K|
                self.spec_cell_index(h(k)) != i && self.own_entries(h).contains_key(k) ==> #[trigger] after.own_entries(
                    h,
                )[k] == self.own_entries(h)[k],
            forall|k: K|
                self.spec_cell_index(h(k)) == i ==> (#[trigger] after.own_entries(h).contains_key(k)
                    <==> after.cells()[i]@.contains_key(k)),
            forall|k: K|
                self.spec_cell_index(h(k)) == i && after.cells()[i]@.contains_key(k) ==> #[trigger] after.own_entries(
                    h,
                )[k] == after.cells()[i]@[k],
    {
        assert forall|j: int| 0 <= j < after.cells().len() implies (#[trigger] after.cells()[j]).wf() && after.cells()[j].word()
            == 0 by {
            if j != i {
                assert(after.cells()[j] == self.cells()[j]);
            }
        }
        assert forall|j: int, k: K| 0 <= j < after.cells().len() && #[trigger] after.cells()[j]@.contains_key(k) implies after.spec_cell_index(
            h(k),
        ) == j && after.cells()[j].tags()[k] == tag_of(partial(h(k))) by {
            if j != i {
                assert(after.cells()[j] == self.cells()[j]);
                assert(self.cells()[j]@.contains_key(k));
            }
        }
        assert forall|k: K| self.spec_cell_index(h(k)) != i implies (#[trigger] after.own_entries(h).contains_key(k)
            <==> self.own_entries(h).contains_key(k)) by {
            self.lemma_cell_index_in_range(h(k));
            assert(after.cells()[self.spec_cell_index(h(k))] == self.cells()[self.spec_cell_index(h(k))]);
        }
        assert forall|k: K|
            self.spec_cell_index(h(k)) != i && self.own_entries(h).contains_key(k) implies #[trigger] after.own_entries(
            h,
        )[k] == self.own_entries(h)[k] by {
            self.lemma_cell_index_in_range(h(k));
            assert(after.cells()[self.spec_cell_index(h(k))] == self.cells()[self.spec_cell_index(h(k))]);
        }
    }
}

impl<K: PartialEq, V> CellArray<K, V> {
    /// Puts an entry that is not in the directory into the cell that its hash selects.
    fn adopt(&mut self, key: K, value: V, hash: u64, guard: &Guard)
        requires
            old(self).wf_cells(),
            obeys_concrete_eq::<K>(),
            0 <= old(self).spec_cell_index(hash) < old(self).cells().len(),
            !old(self).cells()[old(self).spec_cell_index(hash)].spec_killed(),
            !old(self).cells()[old(self).spec_cell_index(hash)]@.contains_key(key),
        ensures
            old(self).replaced(
                final(self),
                old(self).spec_cell_index(hash),
                final(self).cells()[old(self).spec_cell_index(hash)],
            ),
            ({
                let before = old(self).cells()[old(self).spec_cell_index(hash)];
                let after = final(self).cells()[old(self).spec_cell_index(hash)];
                &&& after.wf()
                &&& after.word() == 0
                &&& !after.spec_killed()
                &&& after@ == before@.insert(key, value)
                &&& after.tags() == before.tags().insert(key, tag_of(partial(hash)))
            }),
    {
        let target: usize = self.calculate_cell_index(hash);
        let partial_hash: u8 = partial_hash(hash);
        let mut frames = WaitFrames::new();
        let cell = &mut self.cells[target];
        match CellLocker::try_lock(cell, guard) {
            Some(mut locker) => {
                let result = locker.insert(key, value, partial_hash, guard);
                let ghost inserted = locker.cell_ref.chain();
                locker.release(&mut frames, guard);
                proof {
                    let before = old(self).cells()[target as int];
                    let after = self.cells@[target as int];
                    assert(result is Ok);
                    assert(after.chain() == inserted);
                    assert(before.chain().inserts(&inserted, key, value, partial_hash, result));
                    assert(after.word() == 0);
                    assert(after@ == before@.insert(key, value));
                }
            },
            None => {
                proof {
                    assert(false);
                }
            },
        }
    }
}

impl<K, V> CellArray<K, V> {
    /// Whether `after` differs from this directory in the cells at most, and has the same cells
    /// killed in its predecessor, together with the cell at `i`.
    pub open spec fn same_shape(&self, after: &Self, i: int) -> bool {
        &&& after.lb() == self.lb()
        &&& after.cursor() == self.cursor()
        &&& self.predecessor() is Some
        &&& after.predecessor() is Some
        &&& after.predecessor().unwrap().lb() == self.predecessor().unwrap().lb()
        &&& forall|j: int|
            0 <= j < self.predecessor().unwrap().cells().len() ==> (
            #[trigger] after.predecessor().unwrap().cells()[j]).spec_killed() == (
            self.predecessor().unwrap().cells()[j].spec_killed() || j == i)
    }

    /// What the migration of the cell at `i` of the predecessor does: that cell is killed, and
    /// the directory holds the same entries as before.
    pub open spec fn migrated(&self, after: &Self, i: int, h: spec_fn(K) -> u64) -> bool {
        &&& after.inv(h)
        &&& after.entries(h) == self.entries(h)
        &&& self.same_shape(after, i)
    }

    /// The state in the middle of a migration: the cell at `i` of the predecessor has been
    /// killed, and the entries of `first` are split between the directory and those that are
    /// still to be put into it.
    pub open spec fn migrating(&self, first: &Self, i: int, pending: Seq<(K, V)>, h: spec_fn(K) -> u64) -> bool {
        &&& self.inv(h)
        &&& partitions(first.entries(h), self.entries(h), pending)
        &&& first.same_shape(self, i)
    }

    /// A predecessor cell that has been emptied into a list and killed leaves the directory in
    /// the middle of a migration.
    proof fn lemma_cell_drained(&self, after: &Self, i: int, pending: Seq<(K, V)>, h: spec_fn(K) -> u64)
        requires
            self.inv(h),
            self.predecessor() is Some,
            self.old_replaced(after, i, after.predecessor().unwrap().cells()[i]),
            after.predecessor().unwrap().cells()[i].wf(),
            after.predecessor().unwrap().cells()[i].word() == 0,
            after.predecessor().unwrap().cells()[i].spec_killed(),
            after.predecessor().unwrap().cells()[i]@ == Map::<K, V>::empty(),
            after.predecessor().unwrap().predecessor() is None,
            after.predecessor().unwrap().cursor() == 0,
            lists(pending, self.predecessor().unwrap().cells()[i]@),
        ensures
            after.migrating(self, i, pending, h),
    {
        let old = self.predecessor().unwrap();
        let new = after.predecessor().unwrap();
        let cell = new.cells()[i];
        assert(old.fits(cell, i, h));
        old.lemma_cell_replaced(&new, i, h);
        assert forall|j: int| 0 <= j < old.cells().len() implies (#[trigger] new.cells()[j]).spec_killed() == (
        old.cells()[j].spec_killed() || j == i) by {
            if j != i {
                assert(new.cells()[j] == old.cells()[j]);
            }
        }
        assert forall|j: int| 0 <= j < after.cursor() implies (#[trigger] new.cells()[j]).spec_killed() by {
            assert(old.cells()[j].spec_killed());
        }
        assert forall|k: K| #[trigger] new.own_entries(h).contains_key(k) implies !after.own_entries(h).contains_key(k) by {
            old.lemma_cell_index_in_range(h(k));
            assert(old.own_entries(h).contains_key(k));
        }
        assert(after.own_entries(h) =~= self.own_entries(h));
        let first = self.entries(h);
        let now = after.entries(h);
        assert forall|k: K| #[trigger] now.contains_key(k) implies first.contains_key(k) && first[k] == now[k] by {
            old.lemma_cell_index_in_range(h(k));
            if new.own_entries(h).contains_key(k) {
                assert(old.own_entries(h).contains_key(k));
            }
        }
        assert forall|j: int| 0 <= j < pending.len() implies first.contains_key((#[trigger] pending[j]).0) && first[pending[j].0]
            == pending[j].1 && !now.contains_key(pending[j].0) by {
            let k = pending[j].0;
            assert(old.cells()[i]@.contains_key(k));
            assert(old.spec_cell_index(h(k)) == i);
            assert(old.own_entries(h).contains_key(k));
            assert(!self.own_entries(h).contains_key(k));
        }
        assert forall|k: K| #[trigger] first.contains_key(k) implies now.contains_key(k) || exists|j: int|
            0 <= j < pending.len() && pending[j].0 == k by {
            old.lemma_cell_index_in_range(h(k));
            if old.own_entries(h).contains_key(k) {
                if old.spec_cell_index(h(k)) == i {
                    assert(old.cells()[i]@.contains_key(k));
                } else {
                    assert(new.own_entries(h).contains_key(k));
                }
            }
        }
    }

    /// Putting the last pending entry into the cell that its hash selects is one step of a
    /// migration.
    proof fn lemma_adopted(&self, after: &Self, first: &Self, i: int, pending: Seq<(K, V)>, h: spec_fn(K) -> u64)
        requires
            self.migrating(first, i, pending, h),
            pending.len() > 0,
            self.replaced(
                after,
                self.spec_cell_index(h(pending.last().0)),
                after.cells()[self.spec_cell_index(h(pending.last().0))],
            ),
            ({
                let t = self.spec_cell_index(h(pending.last().0));
                &&& after.cells()[t].wf()
                &&& after.cells()[t].word() == 0
                &&& !after.cells()[t].spec_killed()
                &&& after.cells()[t]@ == self.cells()[t]@.insert(pending.last().0, pending.last().1)
                &&& after.cells()[t].tags() == self.cells()[t].tags().insert(
                    pending.last().0,
                    tag_of(partial(h(pending.last().0))),
                )
            }),
        ensures
            after.migrating(first, i, pending.drop_last(), h),
    {
        let (key, value) = pending.last();
        let t = self.spec_cell_index(h(key));
        let old = self.predecessor().unwrap();
        self.lemma_cell_index_in_range(h(key));
        assert(pending[pending.len() - 1] == pending.last());
        assert(!self.entries(h).contains_key(key));
        assert forall|k: K| #[trigger] after.cells()[t]@.contains_key(k) implies self.spec_cell_index(h(k)) == t
            && after.cells()[t].tags()[k] == tag_of(partial(h(k))) by {
            if k != key {
                assert(self.cells()[t]@.contains_key(k));
            }
        }
        assert(self.fits(after.cells()[t], t, h));
        self.lemma_cell_replaced(after, t, h);
        assert forall|j: int| 0 <= j < after.cells().len() implies !(#[trigger] after.cells()[j]).spec_killed() by {
            if j != t {
                assert(after.cells()[j] == self.cells()[j]);
            }
        }
        assert(after.own_entries(h) =~= self.own_entries(h).insert(key, value)) by {
            assert forall|k: K| after.own_entries(h).contains_key(k) <==> self.own_entries(h).insert(key, value).contains_key(
                k,
            ) by {
                self.lemma_cell_index_in_range(h(k));
            }
            assert forall|k: K| after.own_entries(h).contains_key(k) implies #[trigger] after.own_entries(h)[k]
                == self.own_entries(h).insert(key, value)[k] by {
                self.lemma_cell_index_in_range(h(k));
            }
        }
        assert(!old.own_entries(h).contains_key(key));
        assert(after.entries(h) =~= self.entries(h).insert(key, value));
        assert forall|k: K| #[trigger] old.own_entries(h).contains_key(k) implies !after.own_entries(h).contains_key(k) by {
            assert(k != key);
        }
        lemma_partitions_adopted(first.entries(h), self.entries(h), pending);
    }
}

impl<K: PartialEq + Send + 'static, V: Send + 'static> CellArray<K, V> {
    /// Migrates every entry of the predecessor's cell at `old_cell_index` into the cells that
    /// their hashes select in this directory, and kills the predecessor's cell.
    pub fn kill_cell<H: Fn(&K) -> u64, C: Fn(&K, &V) -> Option<(K, V)>>(
        &mut self,
        old_cell_index: usize,
        hasher: &H,
        copier: &C,
        guard: &Guard,
    )
        requires
            old(self).inv(hash_fn(*hasher)),
            is_hasher(*hasher),
            is_copier(*copier),
            obeys_concrete_eq::<K>(),
            old(self).predecessor() is Some,
            old_cell_index < old(self).predecessor().unwrap().cells().len(),
        ensures
            old(self).migrated(final(self), old_cell_index as int, hash_fn(*hasher)),
    {
        let ghost h = hash_fn(*hasher);
        let mut frames = WaitFrames::new();
        let mut pending: Vec<(K, V)> = match &mut self.old_array {
            Some(previous) => {
                let cell = &mut previous.cells[old_cell_index];
                match CellLocker::try_lock(cell, guard) {
                    Some(mut locker) => {
                        let pending = locker.drain(copier);
                        locker.kill(guard);
                        locker.release(&mut frames, guard);
                        pending
                    },
                    None => {
                        proof {
                            assert(false);
                        }
                        Vec::new()
                    },
                }
            },
            None => {
                proof {
                    assert(false);
                }
                Vec::new()
            },
        };
        proof {
            old(self).lemma_cell_drained(self, old_cell_index as int, pending@, h);
        }
        while pending.len() > 0
            invariant
                self.migrating(old(self), old_cell_index as int, pending@, h),
                h == hash_fn(*hasher),
                is_hasher(*hasher),
                obeys_concrete_eq::<K>(),
            decreases pending.len(),
        {
            let ghost before = *self;
            let ghost listed = pending@;
            let (key, value) = pending.pop().unwrap();
            let hash: u64 = hasher(&key);
            proof {
                lemma_hash(*hasher, key, hash);
                assert(listed[listed.len() - 1] == (key, value));
                assert(!self.entries(h).contains_key(key));
                self.lemma_cell_index_in_range(hash);
                assert(!self.own_entries(h).contains_key(key));
            }
            self.adopt(key, value, hash, guard);
            proof {
                before.lemma_adopted(self, old(self), old_cell_index as int, listed, h);
            }
        }
        proof {
            lemma_partitions_done(old(self).entries(h), self.entries(h), pending@);
        }
    }
}

impl<K: PartialEq + Send + 'static, V: Send + 'static> CellArray<K, V> {
    /// Lets go of the predecessor, all cells of which have been killed, and hands it to the
    /// guard for deferred destruction.
    fn drop_old_array(&mut self, guard: &Guard, Ghost(h): Ghost<spec_fn(K) -> u64>)
        requires
            old(self).inv(h),
            old(self).predecessor() is Some,
            forall|j: int|
                0 <= j < old(self).predecessor().unwrap().cells().len() ==> (
                #[trigger] old(self).predecessor().unwrap().cells()[j]).spec_killed(),
        ensures
            final(self).inv(h),
            final(self).entries(h) == old(self).entries(h),
            final(self).predecessor() is None,
            final(self).lb() == old(self).lb(),
            final(self).cells() == old(self).cells(),
    {
        let old_array = self.old_array.take();
        self.rehashing = 0;
        proof {
            let previous = old(self).predecessor().unwrap();
            assert forall|k: K| !previous.own_entries(h).contains_key(k) by {
                previous.lemma_cell_index_in_range(h(k));
                let cell = previous.cells()[previous.spec_cell_index(h(k))];
                assert(cell.spec_killed());
                cell.chain().lemma_views();
            }
            assert(self.entries(h) =~= old(self).entries(h));
        }
        match old_array {
            Some(previous) => retire(previous, guard),
            None => {},
        }
    }

    /// Drains the next `UNIT_SIZE` cells of the predecessor, if there is one, and lets go of the
    /// predecessor once its last cell has been drained. Returns true if the predecessor has been
    /// let go of by this call.
    pub fn partial_rehash<H: Fn(&K) -> u64, C: Fn(&K, &V) -> Option<(K, V)>>(
        &mut self,
        hasher: &H,
        copier: &C,
        guard: &Guard,
    ) -> (done: bool)
        requires
            old(self).inv(hash_fn(*hasher)),
            is_hasher(*hasher),
            is_copier(*copier),
            obeys_concrete_eq::<K>(),
        ensures
            final(self).inv(hash_fn(*hasher)),
            final(self).entries(hash_fn(*hasher)) == old(self).entries(hash_fn(*hasher)),
            final(self).lb() == old(self).lb(),
            done <==> old(self).predecessor() is Some && final(self).predecessor() is None,
            old(self).predecessor() is None ==> *final(self) == *old(self),
            final(self).predecessor() is Some ==> final(self).predecessor().unwrap().lb() == old(
                self,
            ).predecessor().unwrap().lb(),
            final(self).remaining() == after_rehash(old(self).remaining()),
    {
        let ghost h = hash_fn(*hasher);
        let (first, size): (usize, usize) = match &self.old_array {
            Some(previous) => (self.rehashing, previous.cells.len()),
            None => {
                return false;
            },
        };
        let end: usize = if size - first > UNIT_SIZE {
            first + UNIT_SIZE
        } else {
            size
        };
        let mut index: usize = first;
        while index < end
            invariant
                first <= index <= end <= size,
                h == hash_fn(*hasher),
                is_hasher(*hasher),
                is_copier(*copier),
                obeys_concrete_eq::<K>(),
                self.inv(h),
                self.entries(h) == old(self).entries(h),
                self.lb() == old(self).lb(),
                self.cursor() == first,
                self.predecessor() is Some,
                self.predecessor().unwrap().lb() == old(self).predecessor().unwrap().lb(),
                size == self.predecessor().unwrap().cells().len(),
                forall|j: int| 0 <= j < index ==> (#[trigger] self.predecessor().unwrap().cells()[j]).spec_killed(),
            decreases end - index,
        {
            let ghost before = *self;
            self.kill_cell(index, hasher, copier, guard);
            proof {
                assert forall|j: int| 0 <= j < index + 1 implies (#[trigger] self.predecessor().unwrap().cells()[j]).spec_killed() by {
                    if j < index {
                        assert(before.predecessor().unwrap().cells()[j].spec_killed());
                    }
                }
            }
            index += 1;
        }
        if end == size {
            self.drop_old_array(guard, Ghost(h));
            true
        } else {
            self.rehashing = end;
            false
        }
    }
}

impl<K, V> CellArray<K, V> {
    /// Makes `old_array` the predecessor of a directory that has none and holds nothing.
    pub(crate) fn attach(&mut self, old_array: CellArray<K, V>, Ghost(h): Ghost<spec_fn(K) -> u64>)
        requires
            old(self).wf(),
            old(self).predecessor() is None,
            forall|i: int| 0 <= i < old(self).cells().len() ==> (#[trigger] old(self).cells()[i])@ == Map::<K, V>::empty(),
            old_array.inv(h),
            old_array.predecessor() is None,
        ensures
            final(self).inv(h),
            final(self).entries(h) == old_array.entries(h),
            final(self).predecessor() == Some(old_array),
            final(self).cells() == old(self).cells(),
            final(self).lb() == old(self).lb(),
            final(self).cursor() == 0,
    {
        proof {
            lemma_pow2_pos(old_array.lb());
        }
        self.old_array = Some(Box::new(old_array));
        self.rehashing = 0;
        proof {
            assert forall|k: K| !self.own_entries(h).contains_key(k) by {
                self.lemma_cell_index_in_range(h(k));
            }
            assert(self.entries(h) =~= old_array.entries(h));
        }
    }

    /// The cell at `index` of this directory, or of its predecessor, for writing.
    pub(crate) fn cell_mut(&mut self, in_old: bool, index: usize) -> (cell: &mut Cell<K, V>)
        requires
            in_old ==> old(self).predecessor() is Some && index < old(self).predecessor().unwrap().cells().len(),
            !in_old ==> index < old(self).cells().len(),
        ensures
            *cell == old(self).cell_at(in_old, index as int),
            old(self).with_cell(final(self), in_old, index as int, *final(cell)),
    {
        if in_old {
            match &mut self.old_array {
                Some(previous) => &mut previous.cells[index],
                None => {
                    proof {
                        assert(false);
                    }
                    &mut self.cells[index]
                },
            }
        } else {
            &mut self.cells[index]
        }
    }

    /// The cell at `i` of this directory, or of its predecessor.
    pub open spec fn cell_at(&self, in_old: bool, i: int) -> Cell<K, V> {
        if in_old {
            self.predecessor().unwrap().cells()[i]
        } else {
            self.cells()[i]
        }
    }

    /// Whether `after` is this directory with the cell at `i`, of the directory itself or of
    /// its predecessor, replaced by `cell`.
    pub open spec fn with_cell(&self, after: &Self, in_old: bool, i: int, cell: Cell<K, V>) -> bool {
        if in_old {
            self.old_replaced(after, i, cell)
        } else {
            self.replaced(after, i, cell)
        }
    }
}

impl<K: PartialEq, V> CellArray<K, V> {
    /// The number of entries in the `n` cells that follow each other from the cell at `start`,
    /// around the end of the directory.
    pub open spec fn load(&self, start: int, n: nat) -> nat
        decreases n,
    {
        if n == 0 {
            0
        } else {
            self.load(start, (n - 1) as nat) + self.cells()[(start + n - 1) % (self.cells().len() as int)]@.len()
        }
    }

    /// Whether this directory has the size of a directory that was made for `capacity` entries:
    /// the least power of two of cells, at least two, that gives that room, as far as the
    /// address space allows.
    pub open spec fn sized_for(&self, capacity: usize) -> bool {
        &&& self.wf_cells()
        &&& self.cells().len() * 16 >= capacity || self.cells().len() > usize::MAX / 32
        &&& self.lb() > 1 ==> self.cells().len() / 2 * 16 < capacity
    }

    /// Adds up the entries of `n` cells from the cell at `start` on, and tells whether there are
    /// more than `threshold` of them, as far as a `usize` can tell. The count stops as soon as
    /// that is known.
    pub fn exceeds(&self, start: usize, n: usize, threshold: usize) -> (more: bool)
        requires
            self.wf_cells(),
            start < self.cells().len(),
        ensures
            more == (cap(self.load(start as int, n as nat)) > threshold),
    {
        let size: usize = self.cells.len();
        let mut sum: usize = 0;
        let mut i: usize = 0;
        let mut at: usize = start;
        proof {
            lemma_pow2_at_least(self.lb());
            vstd::arithmetic::div_mod::lemma_small_mod(start as nat, size as nat);
        }
        while i < n && sum <= threshold
            invariant
                self.wf_cells(),
                size == self.cells().len(),
                size >= 2,
                start < size,
                i <= n,
                at < size,
                at == (start + i) % (size as int),
                sum == cap(self.load(start as int, i as nat)),
            decreases n - i,
        {
            sum = saturating_add(sum, self.cells[at].num_entries());
            at = if at + 1 == size {
                0
            } else {
                at + 1
            };
            proof {
                lemma_next_index(start as int, i as int, size as int);
            }
            i += 1;
        }
        proof {
            self.lemma_load_grows(start as int, i as nat, n as nat);
        }
        sum > threshold
    }

    /// The entries of more cells are not fewer.
    pub proof fn lemma_load_grows(&self, start: int, m: nat, n: nat)
        requires
            m <= n,
        ensures
            self.load(start, m) <= self.load(start, n),
        decreases n,
    {
        if m < n {
            self.lemma_load_grows(start, m, (n - 1) as nat);
        }
    }

    /// Estimates the number of entries from the first `num_cells_to_sample` cells.
    pub fn estimate(&self, num_cells_to_sample: usize) -> (estimate: usize)
        requires
            self.wf_cells(),
            0 < num_cells_to_sample <= self.cells().len(),
        ensures
            estimate == cap(
                self.load(0, num_cells_to_sample as nat) * (self.cells().len() / num_cells_to_sample as nat),
            ),
    {
        let mut sum: usize = 0;
        let mut i: usize = 0;
        while i < num_cells_to_sample
            invariant
                self.wf_cells(),
                i <= num_cells_to_sample <= self.cells().len(),
                sum == cap(self.load(0, i as nat)),
            decreases num_cells_to_sample - i,
        {
            proof {
                vstd::arithmetic::div_mod::lemma_small_mod(i as nat, self.cells().len());
            }
            sum = saturating_add(sum, self.cells[i].num_entries());
            i += 1;
        }
        let factor: usize = self.cells.len() / num_cells_to_sample;
        proof {
            let exact = self.load(0, num_cells_to_sample as nat);
            vstd::arithmetic::div_mod::lemma_div_non_zero(self.cells().len() as int, num_cells_to_sample as int);
            if exact > usize::MAX {
                assert(exact * factor >= exact) by (nonlinear_arith)
                    requires
                        factor >= 1,
                        exact >= 0,
                ;
            }
        }
        proof {
            let exact = self.load(0, num_cells_to_sample as nat);
            assert(sum == cap(exact));
            assert(factor == self.cells().len() / num_cells_to_sample as nat);
            if exact <= usize::MAX {
                assert(sum * factor == exact * factor);
            } else {
                assert(sum * factor >= usize::MAX) by (nonlinear_arith)
                    requires
                        sum == usize::MAX,
                        factor >= 1,
                ;
            }
        }
        saturating_mul(sum, factor)
    }
}

impl<K: PartialEq, V> CellArray<K, V> {
    /// The keys that the first `n` cells hold.
    pub open spec fn keys_upto(&self, h: spec_fn(K) -> u64, n: int) -> Set<K> {
        Set::new(|k: K| self.spec_cell_index(h(k)) < n && self.cells()[self.spec_cell_index(h(k))]@.contains_key(k))
    }

    /// The first `n` cells hold as many keys as the sum of their numbers of entries.
    pub proof fn lemma_keys_upto(&self, h: spec_fn(K) -> u64, n: int)
        requires
            self.wf_cells(),
            self.placed(h),
            0 <= n <= self.cells().len(),
        ensures
            self.keys_upto(h, n).finite(),
            self.keys_upto(h, n).len() == self.load(0, n as nat),
        decreases n,
    {
        if n == 0 {
            assert(self.keys_upto(h, 0) =~= Set::<K>::empty()) by {
                assert forall|k: K| !self.keys_upto(h, 0).contains(k) by {
                    self.lemma_cell_index_in_range(h(k));
                }
            }
        } else {
            self.lemma_keys_upto(h, n - 1);
            let cell = self.cells()[n - 1];
            cell.chain().lemma_views();
            vstd::arithmetic::div_mod::lemma_small_mod((n - 1) as nat, self.cells().len());
            let before = self.keys_upto(h, n - 1);
            let added = cell@.dom();
            assert(self.keys_upto(h, n) =~= before.union(added)) by {
                assert forall|k: K| self.keys_upto(h, n).contains(k) <==> before.union(added).contains(k) by {
                    self.lemma_cell_index_in_range(h(k));
                    if added.contains(k) {
                        assert(self.cells()[n - 1]@.contains_key(k));
                    }
                }
            }
            assert(before.disjoint(added)) by {
                assert forall|k: K| !(before.contains(k) && added.contains(k)) by {
                    if added.contains(k) {
                        assert(self.cells()[n - 1]@.contains_key(k));
                    }
                }
            }
            lemma_set_disjoint_lens(before, added);
            assert(before + added == before.union(added));
        }
    }

    /// A directory holds as many entries as the sum of the numbers of entries of its cells.
    pub proof fn lemma_own_entries_len(&self, h: spec_fn(K) -> u64)
        requires
            self.wf_cells(),
            self.placed(h),
        ensures
            self.own_entries(h).dom().finite(),
            self.own_entries(h).len() == self.load(0, self.cells().len()),
    {
        self.lemma_keys_upto(h, self.cells().len() as int);
        assert(self.own_entries(h).dom() =~= self.keys_upto(h, self.cells().len() as int)) by {
            assert forall|k: K|
                self.own_entries(h).dom().contains(k) <==> self.keys_upto(h, self.cells().len() as int).contains(k) by {
                self.lemma_cell_index_in_range(h(k));
            }
        }
    }

    /// A directory and its predecessor hold as many entries as the sum of the numbers of entries
    /// of all their cells.
    pub proof fn lemma_entries_len(&self, h: spec_fn(K) -> u64)
        requires
            self.inv(h),
        ensures
            self.entries(h).dom().finite(),
            self.entries(h).len() == self.load(0, self.cells().len()) + match self.predecessor() {
                Some(previous) => previous.load(0, previous.cells().len()),
                None => 0,
            },
    {
        self.lemma_own_entries_len(h);
        if self.predecessor() is Some {
            let previous = self.predecessor().unwrap();
            previous.lemma_own_entries_len(h);
            let own = self.own_entries(h).dom();
            let other = previous.own_entries(h).dom();
            assert(own.disjoint(other)) by {
                assert forall|k: K| !(own.contains(k) && other.contains(k)) by {
                    if other.contains(k) {
                        assert(previous.own_entries(h).contains_key(k));
                    }
                }
            }
            lemma_set_disjoint_lens(own, other);
            assert(self.entries(h).dom() =~= own + other);
        }
    }

    /// The number of entries in the cells of this directory, its predecessor left aside, as far
    /// as a `usize` can tell it.
    pub fn count(&self) -> (n: usize)
        requires
            self.wf_cells(),
        ensures
            n == cap(self.load(0, self.cells().len())),
    {
        let mut sum: usize = 0;
        let mut i: usize = 0;
        while i < self.cells.len()
            invariant
                self.wf_cells(),
                i <= self.cells().len(),
                sum == cap(self.load(0, i as nat)),
            decreases self.cells().len() - i,
        {
            proof {
                vstd::arithmetic::div_mod::lemma_small_mod(i as nat, self.cells().len());
            }
            sum = saturating_add(sum, self.cells[i].num_entries());
            i += 1;
        }
        sum
    }
}

/// The index that follows `(start + i) % size` is `(start + i + 1) % size`.
pub proof fn lemma_next_index(start: int, i: int, size: int)
    requires
        0 <= start,
        0 <= i,
        2 <= size,
    ensures
        0 <= (start + i) % size < size,
        (start + i + 1) % size == if (start + i) % size + 1 == size {
            0
        } else {
            (start + i) % size + 1
        },
{
    let r = (start + i) % size;
    vstd::arithmetic::div_mod::lemma_mod_pos_bound(start + i, size);
    vstd::arithmetic::div_mod::lemma_add_mod_noop(start + i, 1, size);
    vstd::arithmetic::div_mod::lemma_small_mod(1, size as nat);
    if r + 1 == size {
        vstd::arithmetic::div_mod::lemma_mod_self_0(size);
    } else {
        vstd::arithmetic::div_mod::lemma_small_mod((r + 1) as nat, size as nat);
    }
}

/// A power of two with exponent `e` is greater than `e`.
pub proof fn lemma_pow2_at_least(e: nat)
    ensures
        pow2(e) > e,
    decreases e,
{
    if e == 0 {
        lemma_pow2_pos(0);
    } else {
        lemma_pow2_at_least((e - 1) as nat);
        lemma_pow2_unfold(e);
    }
}

} // verus!
