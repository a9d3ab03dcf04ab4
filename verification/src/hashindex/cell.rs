//! A cell: a bucket of tagged slots with an overflow chain, guarded by a lock word.
//!
//! A cell owns a chain of slot arrays of `ARRAY_SIZE` slots each. The newest array is the head
//! of the chain; a cell that has lost its arrays is killed and stays so. Every slot carries a
//! one-byte tag: 0 for a slot that was never used, otherwise `OCCUPIED` together with six bits
//! of the entry's partial hash, and `REMOVED` on top once the entry has been logically removed.
//! The lock word holds the lock in its lowest bit and the handle of the newest parked waiter
//! in the bits above it.

use crate::ebr::retire;
use crate::wait_queue::{head, head_of, is_locked, locked, with_head, with_lock, without_lock, WaitFrames};
use crossbeam_epoch::Guard;
use vstd::laws_eq::obeys_concrete_eq;
use vstd::prelude::*;
use vstd::relations::injective_on;
use vstd::set_lib::{lemma_int_range, lemma_len_subset, lemma_map_size, set_int_range};

verus! {

/// The number of slots in one slot array.
pub const ARRAY_SIZE: usize = 16;

/// The tag bit of a slot that holds an entry.
const OCCUPIED: u8 = 64;

/// The tag bit of a slot whose entry has been removed.
const REMOVED: u8 = 128;

/// The tag under which an entry with the given partial hash is stored: `OCCUPIED` and the low
/// six bits of the partial hash.
pub open spec fn tag_of(partial_hash: u8) -> u8 {
    (64 + partial_hash % 64) as u8
}

/// The tag of a slot that holds a visible entry.
pub open spec fn is_live(tag: u8) -> bool {
    64 <= tag < 128
}

/// The tag of a slot whose entry has been removed but not yet reclaimed.
pub open spec fn is_removed(tag: u8) -> bool {
    tag >= 192
}

/// Computes the tag of a partial hash.
fn tag(partial_hash: u8) -> (tag: u8)
    ensures
        tag == tag_of(partial_hash),
        is_live(tag),
{
    let tag: u8 = (partial_hash & !REMOVED) | OCCUPIED;
    assert(((partial_hash & !128u8) | 64u8) == 64 + partial_hash % 64) by (bit_vector);
    tag
}

/// One array of slots: the tags and the storage they describe.
pub struct DataArray<K, V> {
    partial_hash_array: [u8; ARRAY_SIZE],
    data: Vec<Option<(K, V)>>,
}

impl<K, V> DataArray<K, V> {
    /// An array of slots that were never used.
    fn new() -> (array: Self)
        ensures
            array.data@.len() == ARRAY_SIZE,
            forall|i: int| 0 <= i < ARRAY_SIZE ==> array.partial_hash_array@[i] == 0 && array.data@[i] is None,
    {
        let mut data: Vec<Option<(K, V)>> = Vec::new();
        let mut i: usize = 0;
        while i < ARRAY_SIZE
            invariant
                i <= ARRAY_SIZE,
                data@.len() == i,
                forall|j: int| 0 <= j < i ==> data@[j] is None,
            decreases ARRAY_SIZE - i,
        {
            data.push(None);
            i += 1;
        }
        DataArray { partial_hash_array: [0u8; 16], data }
    }
}

/// The place of a slot in a chain: the array, counted from the oldest, and the slot in it.
pub struct EntryIterator {
    array_index: usize,
    slot_index: usize,
}

impl EntryIterator {
    /// The array and the slot that this place names.
    pub closed spec fn position(&self) -> (int, int) {
        (self.array_index as int, self.slot_index as int)
    }
}

/// The chain of slot arrays that a cell owns, newest array last.
#[verifier::reject_recursive_types(K)]
pub struct DataChain<K, V> {
    /// `None` once the cell has been killed.
    arrays: Option<Vec<DataArray<K, V>>>,
    num_entries: u128,
    /// Where each visible key is stored.
    index: Ghost<Map<K, (int, int)>>,
}

impl<K, V> View for DataChain<K, V> {
    type V = Map<K, V>;

    /// The visible entries.
    closed spec fn view(&self) -> Map<K, V> {
        Map::new(
            |k: K| self.index@.contains_key(k),
            |k: K| self.entry_at(self.index@[k].0, self.index@[k].1).unwrap().1,
        )
    }
}

impl<K, V> DataChain<K, V> {
    /// Whether the chain has been given up.
    pub closed spec fn spec_killed(&self) -> bool {
        self.arrays is None
    }

    /// The length of the chain, 0 once it has been given up.
    pub closed spec fn num_arrays(&self) -> nat {
        match self.arrays {
            Some(arrays) => arrays@.len(),
            None => 0,
        }
    }

    /// The tag of a slot.
    pub closed spec fn tag_at(&self, a: int, i: int) -> u8 {
        self.arrays.unwrap()@[a].partial_hash_array@[i]
    }

    /// The storage of a slot.
    pub closed spec fn entry_at(&self, a: int, i: int) -> Option<(K, V)> {
        self.arrays.unwrap()@[a].data@[i]
    }

    /// Whether `(a, i)` names a slot of the chain.
    pub open spec fn in_range(&self, a: int, i: int) -> bool {
        0 <= a < self.num_arrays() && 0 <= i < ARRAY_SIZE
    }

    /// Whether `(a, i)` names a slot that holds a visible entry.
    pub open spec fn live_at(&self, a: int, i: int) -> bool {
        self.in_range(a, i) && is_live(self.tag_at(a, i))
    }

    /// Whether no slot is vacant.
    pub open spec fn is_full(&self) -> bool {
        forall|a: int, i: int| self.in_range(a, i) ==> #[trigger] self.tag_at(a, i) != 0
    }

    /// Whether the slot that an entry with this partial hash prefers, in the newest array, is
    /// vacant.
    pub open spec fn preferred_vacant(&self, partial_hash: u8) -> bool {
        self.num_arrays() > 0 && self.tag_at(self.num_arrays() - 1, (partial_hash % 16) as int) == 0
    }

    /// Whether `(a, i)` is the first vacant slot in the order of a scan: from the newest array to
    /// the oldest, through the slots of each in turn.
    pub open spec fn first_vacant(&self, a: int, i: int) -> bool {
        &&& self.in_range(a, i)
        &&& self.tag_at(a, i) == 0
        &&& forall|b: int, j: int|
            self.in_range(b, j) && (b > a || (b == a && j < i)) ==> #[trigger] self.tag_at(b, j) != 0
    }

    /// Whether every slot of `self` but `(a, i)` is found unchanged in `other`.
    pub open spec fn same_except(&self, other: &Self, a: int, i: int) -> bool {
        forall|b: int, j: int|
            self.in_range(b, j) && !(b == a && j == i) ==> #[trigger] other.tag_at(b, j) == self.tag_at(b, j)
                && other.entry_at(b, j) == self.entry_at(b, j)
    }

    /// Whether every slot of the array `a` but the slot `i` is vacant.
    pub open spec fn vacant_but(&self, a: int, i: int) -> bool {
        forall|j: int| 0 <= j < ARRAY_SIZE && j != i ==> #[trigger] self.tag_at(a, j) == 0
    }

    /// Whether every slot of `self` is found unchanged in `other`.
    pub open spec fn same_slots(&self, other: &Self) -> bool {
        forall|b: int, j: int|
            self.in_range(b, j) ==> #[trigger] other.tag_at(b, j) == self.tag_at(b, j) && other.entry_at(b, j)
                == self.entry_at(b, j)
    }

    /// What `insert` does. It succeeds unless the chain has been given up or the key is visible;
    /// then nothing changes and the pair comes back. Else the entry becomes visible under the
    /// tag of its partial hash: in the preferred slot of the newest array if that was vacant,
    /// else in the first vacant slot, else in the preferred slot of a new array at the head of
    /// the chain. No other slot changes.
    pub open spec fn inserts(
        &self,
        after: &Self,
        key: K,
        value: V,
        partial_hash: u8,
        result: Result<(), (K, V)>,
    ) -> bool {
        let place = after.positions()[key];
        &&& after.wf()
        &&& after.spec_killed() == self.spec_killed()
        &&& result is Ok <==> !self.spec_killed() && !self@.contains_key(key)
        &&& result is Err ==> result == Err::<(), (K, V)>((key, value)) && *after == *self
        &&& result is Ok ==> {
            &&& after@ == self@.insert(key, value)
            &&& after.tags() == self.tags().insert(key, tag_of(partial_hash))
            &&& after.positions() == self.positions().insert(key, place)
            &&& after.num_arrays() == self.num_arrays() + if self.is_full() {
                1nat
            } else {
                0nat
            }
            &&& self.preferred_vacant(partial_hash) ==> place == (self.num_arrays() - 1, (partial_hash % 16) as int)
            &&& !self.preferred_vacant(partial_hash) && !self.is_full() ==> self.first_vacant(place.0, place.1)
            &&& self.is_full() ==> place == (self.num_arrays() as int, (partial_hash % 16) as int)
            &&& self.is_full() ==> after.vacant_but(self.num_arrays() as int, place.1)
            &&& self.same_except(after, place.0, place.1)
            &&& after.tag_at(place.0, place.1) == tag_of(partial_hash)
            &&& after.entry_at(place.0, place.1) == Some((key, value))
        }
    }

    /// Slots that survive the growth of the chain and a write into the new array are unchanged.
    proof fn lemma_same_except_after_growth(&self, mid: &Self, last: &Self, a: int, i: int)
        requires
            a >= self.num_arrays(),
            mid.num_arrays() >= self.num_arrays(),
            self.same_slots(mid),
            mid.same_except(last, a, i),
        ensures
            self.same_except(last, a, i),
    {
        assert forall|b: int, j: int| self.in_range(b, j) && !(b == a && j == i) implies #[trigger] last.tag_at(b, j)
            == self.tag_at(b, j) && last.entry_at(b, j) == self.entry_at(b, j) by {
            assert(mid.tag_at(b, j) == self.tag_at(b, j));
            assert(mid.in_range(b, j));
        }
    }

    /// Whether `insert` can tell that `key` is present, should it be: the scan for an equal key
    /// runs only when the preferred slot is taken and looks only at slots with the key's tag.
    pub open spec fn insertable(&self, key: K, partial_hash: u8) -> bool {
        self@.contains_key(key) ==> self.tags()[key] == tag_of(partial_hash) && !self.preferred_vacant(
            partial_hash,
        )
    }

    /// The tag under which each visible key is stored.
    pub closed spec fn tags(&self) -> Map<K, u8> {
        Map::new(|k: K| self.index@.contains_key(k), |k: K| self.tag_at(self.index@[k].0, self.index@[k].1))
    }

    /// The slot of each visible key.
    pub closed spec fn positions(&self) -> Map<K, (int, int)> {
        self.index@
    }

    /// The invariant: a chain that has not been given up has at least one slot array, tags and
    /// storage agree, no key is visible twice, and the count of entries is exact.
    pub closed spec fn wf(&self) -> bool {
        &&& self.index@.dom().finite()
        &&& self.num_entries == self.index@.dom().len()
        &&& match self.arrays {
            Some(arrays) => {
                &&& 1 <= arrays@.len()
                &&& forall|a: int| 0 <= a < arrays@.len() ==> (#[trigger] arrays@[a]).data@.len() == ARRAY_SIZE
            },
            None => self.index@.dom() =~= Set::empty(),
        }
        &&& forall|a: int, i: int|
            #![trigger self.tag_at(a, i)]
            self.in_range(a, i) ==> {
                let t = self.tag_at(a, i);
                &&& t == 0 || is_live(t) || is_removed(t)
                &&& t == 0 <==> self.entry_at(a, i) is None
            }
        &&& forall|k: K| #[trigger]
            self.index@.contains_key(k) ==> {
                let (a, i) = self.index@[k];
                &&& self.live_at(a, i)
                &&& self.entry_at(a, i).unwrap().0 == k
            }
        &&& forall|a: int, i: int|
            #![trigger self.tag_at(a, i)]
            self.live_at(a, i) ==> {
                let k = self.entry_at(a, i).unwrap().0;
                &&& self.index@.contains_key(k)
                &&& self.index@[k] == (a, i)
            }
    }

    /// The view, the tags and the positions speak of the same keys, and what they say of a key
    /// is what its slot holds.
    pub proof fn lemma_views(&self)
        requires
            self.wf(),
        ensures
            self@.dom() == self.positions().dom(),
            self.tags().dom() == self.positions().dom(),
            self@.dom().finite(),
            forall|k: K| #[trigger]
                self.positions().contains_key(k) ==> {
                    let (a, i) = self.positions()[k];
                    &&& self.live_at(a, i)
                    &&& self.entry_at(a, i) == Some((k, self@[k]))
                    &&& self.tag_at(a, i) == self.tags()[k]
                },
            forall|a: int, i: int|
                #![trigger self.tag_at(a, i)]
                self.live_at(a, i) ==> {
                    let k = self.entry_at(a, i).unwrap().0;
                    &&& self.positions().contains_key(k)
                    &&& self.positions()[k] == (a, i)
                },
            forall|a: int, i: int|
                #![trigger self.tag_at(a, i)]
                self.in_range(a, i) ==> {
                    let t = self.tag_at(a, i);
                    &&& t == 0 || is_live(t) || is_removed(t)
                    &&& t == 0 <==> self.entry_at(a, i) is None
                },
            self.spec_killed() ==> self@ =~= Map::empty(),
            !self.spec_killed() ==> 1 <= self.num_arrays(),
    {
        assert(self@.dom() =~= self.index@.dom());
        assert(self.tags().dom() =~= self.index@.dom());
        assert forall|k: K| #[trigger] self.positions().contains_key(k) implies {
            let (a, i) = self.positions()[k];
            &&& self.live_at(a, i)
            &&& self.entry_at(a, i) == Some((k, self@[k]))
            &&& self.tag_at(a, i) == self.tags()[k]
        } by {
            assert(self.index@.contains_key(k));
        }
    }

    /// Visible keys sit in distinct slots, so there are at most as many as slots that are not
    /// vacant: fewer than all slots where one is vacant.
    proof fn lemma_count_bound(&self)
        requires
            self.wf(),
        ensures
            self.num_arrays() <= usize::MAX,
            self.index@.dom().len() <= 16 * self.num_arrays(),
            forall|a: int, i: int|
                self.in_range(a, i) && #[trigger] self.tag_at(a, i) == 0 ==> self.index@.dom().len() < 16
                    * self.num_arrays(),
    {
        if let Some(arrays) = self.arrays {
            assert(arrays.len() == arrays@.len());
        }
        let n = self.num_arrays() as int;
        let index = self.index@;
        let f = |k: K| index[k].0 * 16 + index[k].1;
        let image = index.dom().map(f);
        assert(injective_on(f, index.dom())) by {
            assert forall|k1: K, k2: K|
                index.dom().contains(k1) && index.dom().contains(k2) && #[trigger] f(k1) == #[trigger] f(
                    k2,
                ) implies k1 == k2 by {
                assert(index.contains_key(k1) && index.contains_key(k2));
                assert(index[k1] == index[k2]);
            }
        }
        lemma_map_size(index.dom(), image, f);
        lemma_int_range(0, 16 * n);
        assert forall|p: int| image.contains(p) implies set_int_range(0, 16 * n).contains(p) by {
            let k = choose|k: K| index.dom().contains(k) && f(k) == p;
            assert(index.contains_key(k));
        }
        lemma_len_subset(image, set_int_range(0, 16 * n));
        assert forall|a: int, i: int| self.in_range(a, i) && #[trigger] self.tag_at(a, i) == 0 implies index.dom().len()
            < 16 * n by {
            let p = a * 16 + i;
            let rest = set_int_range(0, 16 * n).remove(p);
            assert forall|q: int| image.contains(q) implies rest.contains(q) by {
                let k = choose|k: K| index.dom().contains(k) && f(k) == q;
                assert(index.contains_key(k));
                assert(self.live_at(index[k].0, index[k].1));
            }
            lemma_len_subset(image, rest);
        }
    }

    /// A chain of one slot array, all slots vacant.
    fn new() -> (chain: Self)
        ensures
            chain.wf(),
            chain@ == Map::<K, V>::empty(),
            !chain.spec_killed(),
            chain.num_arrays() == 1,
            forall|i: int| 0 <= i < ARRAY_SIZE ==> chain.tag_at(0, i) == 0,
    {
        let mut arrays: Vec<DataArray<K, V>> = Vec::new();
        arrays.push(DataArray::new());
        let chain = DataChain { arrays: Some(arrays), num_entries: 0, index: Ghost(Map::empty()) };
        proof {
            assert(chain.index@.dom() =~= Set::empty());
            assert(chain@ =~= Map::<K, V>::empty());
        }
        chain
    }

    /// The number of slot arrays.
    fn len(&self) -> (n: usize)
        ensures
            n == self.num_arrays(),
    {
        match &self.arrays {
            Some(arrays) => arrays.len(),
            None => 0,
        }
    }

    /// Reads the tag of a slot.
    fn tag(&self, a: usize, i: usize) -> (tag: u8)
        requires
            self.wf(),
            self.in_range(a as int, i as int),
        ensures
            tag == self.tag_at(a as int, i as int),
    {
        match &self.arrays {
            Some(arrays) => arrays[a].partial_hash_array[i],
            None => 0,
        }
    }

    /// Writes an entry into a vacant slot.
    fn put(&mut self, a: usize, i: usize, tag: u8, key: K, value: V)
        requires
            old(self).wf(),
            old(self).in_range(a as int, i as int),
            old(self).tag_at(a as int, i as int) == 0,
            is_live(tag),
            !old(self)@.contains_key(key),
        ensures
            final(self).wf(),
            final(self)@ == old(self)@.insert(key, value),
            final(self).tags() == old(self).tags().insert(key, tag),
            final(self).positions() == old(self).positions().insert(key, (a as int, i as int)),
            final(self).num_arrays() == old(self).num_arrays(),
            final(self).tag_at(a as int, i as int) == tag,
            final(self).entry_at(a as int, i as int) == Some((key, value)),
            old(self).same_except(final(self), a as int, i as int),
    {
        proof {
            old(self).lemma_count_bound();
            old(self).lemma_views();
        }
        let ghost pair = (key, value);
        match &mut self.arrays {
            Some(arrays) => {
                let array = &mut arrays[a];
                array.partial_hash_array[i] = tag;
                array.data[i] = Some((key, value));
            },
            None => {},
        }
        self.num_entries = self.num_entries + 1;
        self.index = Ghost(self.index@.insert(pair.0, (a as int, i as int)));
        proof {
            let old_arrays = old(self).arrays.unwrap()@;
            let new_arrays = self.arrays.unwrap()@;
            assert(new_arrays.len() == old_arrays.len());
            assert forall|b: int, j: int| old(self).in_range(b, j) && !(b == a && j == i) implies #[trigger] self.tag_at(
                b,
                j,
            ) == old(self).tag_at(b, j) && self.entry_at(b, j) == old(self).entry_at(b, j) by {
                if b != a {
                    assert(new_arrays[b] == old_arrays[b]);
                }
            }
            assert(self.tag_at(a as int, i as int) == tag);
            assert(self.entry_at(a as int, i as int) == Some(pair));
            assert forall|b: int| 0 <= b < new_arrays.len() implies (#[trigger] new_arrays[b]).data@.len() == ARRAY_SIZE by {
                assert(old_arrays[b].data@.len() == ARRAY_SIZE);
            }
            assert forall|k: K| #[trigger] self.index@.contains_key(k) implies {
                let (b, j) = self.index@[k];
                &&& self.live_at(b, j)
                &&& self.entry_at(b, j).unwrap().0 == k
            } by {
                if k != pair.0 {
                    assert(old(self).index@.contains_key(k));
                    let (b, j) = old(self).index@[k];
                    assert(old(self).live_at(b, j));
                    assert(self.tag_at(b, j) == old(self).tag_at(b, j));
                }
            }
            assert forall|b: int, j: int| #![trigger self.tag_at(b, j)] self.live_at(b, j) implies {
                let k = self.entry_at(b, j).unwrap().0;
                &&& self.index@.contains_key(k)
                &&& self.index@[k] == (b, j)
            } by {
                if (b, j) != (a as int, i as int) {
                    assert(self.tag_at(b, j) == old(self).tag_at(b, j));
                    assert(old(self).live_at(b, j));
                    assert(old(self).index@.contains_key(old(self).entry_at(b, j).unwrap().0));
                }
            }
            assert forall|b: int, j: int| #![trigger self.tag_at(b, j)] self.in_range(b, j) implies {
                let t = self.tag_at(b, j);
                &&& t == 0 || is_live(t) || is_removed(t)
                &&& t == 0 <==> self.entry_at(b, j) is None
            } by {
                if (b, j) != (a as int, i as int) {
                    assert(self.tag_at(b, j) == old(self).tag_at(b, j));
                }
            }
            assert(self@ =~= old(self)@.insert(pair.0, pair.1)) by {
                assert forall|k: K| self@.contains_key(k) implies #[trigger] self@[k] == old(self)@.insert(pair.0, pair.1)[k] by {
                    if k != pair.0 {
                        assert(old(self).index@.contains_key(k));
                        let (b, j) = old(self).index@[k];
                        assert(old(self).live_at(b, j));
                        assert(self.tag_at(b, j) == old(self).tag_at(b, j));
                    }
                }
            }
            assert(self.tags() =~= old(self).tags().insert(pair.0, tag)) by {
                assert forall|k: K| self.tags().contains_key(k) implies #[trigger] self.tags()[k] == old(self).tags().insert(pair.0, tag)[k] by {
                    if k != pair.0 {
                        assert(old(self).index@.contains_key(k));
                        let (b, j) = old(self).index@[k];
                        assert(old(self).live_at(b, j));
                        assert(self.tag_at(b, j) == old(self).tag_at(b, j));
                    }
                }
            }
        }
    }
}


impl<K: PartialEq, V> DataChain<K, V> {
    /// Looks for the slot that holds `key` under the tag of `partial_hash`, from the newest
    /// array to the oldest.
    fn get(&self, key: &K, partial_hash: u8) -> (found: Option<EntryIterator>)
        requires
            self.wf(),
            obeys_concrete_eq::<K>(),
        ensures
            found is Some <==> self@.contains_key(*key) && self.tags()[*key] == tag_of(partial_hash),
            found is Some ==> found.unwrap().position() == self.positions()[*key],
    {
        proof {
            self.lemma_views();
        }
        let arrays = match &self.arrays {
            Some(arrays) => arrays,
            None => {
                return None;
            },
        };
        let tag: u8 = tag(partial_hash);
        let mut a: usize = arrays.len();
        while a > 0
            invariant
                self.wf(),
                obeys_concrete_eq::<K>(),
                self.arrays == Some(*arrays),
                a <= arrays@.len(),
                tag == tag_of(partial_hash),
                is_live(tag),
                forall|b: int, i: int|
                    a <= b < arrays@.len() && 0 <= i < ARRAY_SIZE && #[trigger] self.tag_at(b, i) == tag
                        ==> self.entry_at(b, i).unwrap().0 != *key,
            decreases a,
        {
            a -= 1;
            let array = &arrays[a];
            let mut i: usize = 0;
            while i < ARRAY_SIZE
                invariant
                    self.wf(),
                    obeys_concrete_eq::<K>(),
                    self.arrays == Some(*arrays),
                    a < arrays@.len(),
                    array == arrays@[a as int],
                    i <= ARRAY_SIZE,
                    tag == tag_of(partial_hash),
                    is_live(tag),
                    forall|b: int, j: int|
                        a < b < arrays@.len() && 0 <= j < ARRAY_SIZE && #[trigger] self.tag_at(b, j) == tag
                            ==> self.entry_at(b, j).unwrap().0 != *key,
                    forall|j: int|
                        0 <= j < i && #[trigger] self.tag_at(a as int, j) == tag ==> self.entry_at(
                            a as int,
                            j,
                        ).unwrap().0 != *key,
                decreases ARRAY_SIZE - i,
            {
                proof {
                    self.lemma_views();
                    assert(self.tag_at(a as int, i as int) == array.partial_hash_array@[i as int]);
                    assert(self.entry_at(a as int, i as int) == array.data@[i as int]);
                }
                if array.partial_hash_array[i] == tag {
                    match &array.data[i] {
                        Some(entry) => {
                            proof {
                                reveal(obeys_concrete_eq);
                            }
                            if entry.0 == *key {
                                proof {
                                    assert(self.live_at(a as int, i as int));
                                }
                                return Some(EntryIterator { array_index: a, slot_index: i });
                            }
                        },
                        None => {},
                    }
                }
                i += 1;
            }
        }
        proof {
            if self@.contains_key(*key) && self.tags()[*key] == tag_of(partial_hash) {
                assert(self.positions().contains_key(*key));
                let (b, j) = self.positions()[*key];
                assert(self.tag_at(b, j) == tag);
            }
        }
        None
    }

    /// The entry in a slot that holds a visible one.
    fn entry(&self, place: &EntryIterator) -> (entry: &(K, V))
        requires
            self.wf(),
            self.live_at(place.position().0, place.position().1),
        ensures
            self.entry_at(place.position().0, place.position().1) == Some(*entry),
            self@.contains_key(entry.0),
            self@[entry.0] == entry.1,
            self.positions()[entry.0] == place.position(),
    {
        proof {
            self.lemma_views();
            assert(self.tag_at(place.position().0, place.position().1) != 0);
        }
        match &self.arrays {
            Some(arrays) => {
                match &arrays[place.array_index].data[place.slot_index] {
                    Some(entry) => entry,
                    None => {
                        proof {
                            assert(false);
                        }
                        unreached()
                    },
                }
            },
            None => {
                proof {
                    assert(false);
                }
                unreached()
            },
        }
    }

    /// Looks for the first vacant slot in the order of a scan.
    fn find_vacant(&self) -> (free: Option<EntryIterator>)
        requires
            self.wf(),
        ensures
            match free {
                Some(place) => self.first_vacant(place.position().0, place.position().1),
                None => self.is_full(),
            },
    {
        let arrays = match &self.arrays {
            Some(arrays) => arrays,
            None => {
                return None;
            },
        };
        let mut a: usize = arrays.len();
        while a > 0
            invariant
                self.wf(),
                self.arrays == Some(*arrays),
                a <= arrays@.len(),
                forall|b: int, i: int| a <= b < arrays@.len() && 0 <= i < ARRAY_SIZE ==> #[trigger] self.tag_at(b, i) != 0,
            decreases a,
        {
            a -= 1;
            let array = &arrays[a];
            let mut i: usize = 0;
            while i < ARRAY_SIZE
                invariant
                    self.wf(),
                    self.arrays == Some(*arrays),
                    a < arrays@.len(),
                    array == arrays@[a as int],
                    i <= ARRAY_SIZE,
                    forall|b: int, j: int| a < b < arrays@.len() && 0 <= j < ARRAY_SIZE ==> #[trigger] self.tag_at(b, j) != 0,
                    forall|j: int| 0 <= j < i ==> #[trigger] self.tag_at(a as int, j) != 0,
                decreases ARRAY_SIZE - i,
            {
                proof {
                    assert(self.tag_at(a as int, i as int) == array.partial_hash_array@[i as int]);
                }
                if array.partial_hash_array[i] == 0 {
                    return Some(EntryIterator { array_index: a, slot_index: i });
                }
                i += 1;
            }
        }
        None
    }

    /// Inserts an entry: into the preferred slot of the newest array if that is vacant; else,
    /// unless the key is found, into the first vacant slot; else into a new array at the head of
    /// the chain.
    fn insert(&mut self, key: K, value: V, partial_hash: u8) -> (result: Result<(), (K, V)>)
        requires
            old(self).wf(),
            obeys_concrete_eq::<K>(),
            old(self).insertable(key, partial_hash),
        ensures
            old(self).inserts(final(self), key, value, partial_hash, result),
    {
        proof {
            self.lemma_views();
        }
        let n: usize = self.len();
        if n == 0 {
            return Err((key, value));
        }
        let tag: u8 = tag(partial_hash);
        let preferred: usize = (partial_hash % 16) as usize;
        if self.tag(n - 1, preferred) == 0 {
            proof {
                assert(old(self).preferred_vacant(partial_hash));
                assert(old(self).in_range(n - 1, preferred as int));
                assert(!old(self).is_full());
                assert(!old(self)@.contains_key(key));
            }
            self.put(n - 1, preferred, tag, key, value);
            proof {
                assert(self.positions()[key] == (n - 1, preferred as int));
            }
            return Ok(());
        }
        if self.get(&key, partial_hash).is_some() {
            return Err((key, value));
        }
        proof {
            assert(!old(self).preferred_vacant(partial_hash));
            assert(!old(self)@.contains_key(key));
        }
        match self.find_vacant() {
            Some(place) => {
                proof {
                    assert(old(self).in_range(place.position().0, place.position().1));
                    assert(old(self).tag_at(place.position().0, place.position().1) == 0);
                    assert(!old(self).is_full());
                }
                self.put(place.array_index, place.slot_index, tag, key, value);
                proof {
                    assert(self.positions()[key] == place.position());
                }
                Ok(())
            },
            None => {
                self.grow();
                let ghost mid = *self;

                self.put(n, preferred, tag, key, value);
                proof {
                    assert(self.positions()[key] == (n as int, preferred as int));
                    old(self).lemma_same_except_after_growth(&mid, self, n as int, preferred as int);
                }
                Ok(())
            },
        }
    }

    /// Puts a new slot array at the head of the chain.
    fn grow(&mut self)
        requires
            old(self).wf(),
            !old(self).spec_killed(),
        ensures
            final(self).wf(),
            final(self)@ == old(self)@,
            final(self).tags() == old(self).tags(),
            final(self).positions() == old(self).positions(),
            final(self).num_arrays() == old(self).num_arrays() + 1,
            forall|i: int| 0 <= i < ARRAY_SIZE ==> #[trigger] final(self).tag_at(old(self).num_arrays() as int, i) == 0,
            old(self).same_slots(final(self)),
    {
        match &mut self.arrays {
            Some(arrays) => {
                arrays.push(DataArray::new());
            },
            None => {},
        }
        proof {
            let old_arrays = old(self).arrays.unwrap()@;
            let new_arrays = self.arrays.unwrap()@;
            assert(new_arrays == old_arrays.push(new_arrays[old_arrays.len() as int]));
            assert forall|b: int, j: int| old(self).in_range(b, j) implies #[trigger] self.tag_at(b, j) == old(
                self,
            ).tag_at(b, j) && self.entry_at(b, j) == old(self).entry_at(b, j) by {
                assert(new_arrays[b] == old_arrays[b]);
            }
            assert forall|b: int| 0 <= b < new_arrays.len() implies (#[trigger] new_arrays[b]).data@.len() == ARRAY_SIZE by {
                if b < old_arrays.len() {
                    assert(new_arrays[b] == old_arrays[b]);
                }
            }
            assert forall|k: K| #[trigger] self.index@.contains_key(k) implies {
                let (b, j) = self.index@[k];
                &&& self.live_at(b, j)
                &&& self.entry_at(b, j).unwrap().0 == k
            } by {
                let (b, j) = old(self).index@[k];
                assert(old(self).live_at(b, j));
                assert(self.tag_at(b, j) == old(self).tag_at(b, j));
            }
            assert forall|b: int, j: int| #![trigger self.tag_at(b, j)] self.live_at(b, j) implies {
                let k = self.entry_at(b, j).unwrap().0;
                &&& self.index@.contains_key(k)
                &&& self.index@[k] == (b, j)
            } by {
                if b < old_arrays.len() {
                    assert(self.tag_at(b, j) == old(self).tag_at(b, j));
                    assert(old(self).live_at(b, j));
                }
            }
            assert forall|b: int, j: int| #![trigger self.tag_at(b, j)] self.in_range(b, j) implies {
                let t = self.tag_at(b, j);
                &&& t == 0 || is_live(t) || is_removed(t)
                &&& t == 0 <==> self.entry_at(b, j) is None
            } by {
                if b < old_arrays.len() {
                    assert(self.tag_at(b, j) == old(self).tag_at(b, j));
                }
            }
            assert(self@ =~= old(self)@) by {
                assert forall|k: K| self@.contains_key(k) implies #[trigger] self@[k] == old(self)@[k] by {
                    let (b, j) = old(self).index@[k];
                    assert(old(self).live_at(b, j));
                    assert(self.tag_at(b, j) == old(self).tag_at(b, j));
                }
            }
            assert(self.tags() =~= old(self).tags()) by {
                assert forall|k: K| self.tags().contains_key(k) implies #[trigger] self.tags()[k] == old(self).tags()[k] by {
                    let (b, j) = old(self).index@[k];
                    assert(old(self).live_at(b, j));
                    assert(self.tag_at(b, j) == old(self).tag_at(b, j));
                }
            }
        }
    }
}


impl<K, V> DataChain<K, V> {
    /// What removing the entry of the slot `(a, i)` changes: the key leaves the view, every
    /// other slot stays as it is.
    pub open spec fn removed_from(&self, before: &Self, a: int, i: int) -> bool {
        let key = before.entry_at(a, i).unwrap().0;
        &&& self.wf()
        &&& self@ == before@.remove(key)
        &&& self.tags() == before.tags().remove(key)
        &&& self.positions() == before.positions().remove(key)
        &&& self.num_arrays() == before.num_arrays()
        &&& self.spec_killed() == before.spec_killed()
        &&& before.same_except(self, a, i)
    }

    /// The proof that a slot which has just lost its entry leaves a well-formed chain behind.
    proof fn lemma_removed(&self, before: &Self, a: int, i: int)
        requires
            before.wf(),
            before.live_at(a, i),
            self.arrays is Some,
            self.num_arrays() == before.num_arrays(),
            forall|b: int| 0 <= b < self.num_arrays() ==> (#[trigger] self.arrays.unwrap()@[b]).data@.len() == ARRAY_SIZE,
            before.same_except(self, a, i),
            self.tag_at(a, i) == 0 && self.entry_at(a, i) is None || is_removed(self.tag_at(a, i)) && self.entry_at(
                a,
                i,
            ) is Some,
            self.index@ == before.index@.remove(before.entry_at(a, i).unwrap().0),
            self.num_entries == before.num_entries - 1,
        ensures
            self.removed_from(before, a, i),
    {
        before.lemma_views();
        let key = before.entry_at(a, i).unwrap().0;
        assert(before.tag_at(a, i) != 0);
        assert(before.index@.contains_key(key) && before.index@[key] == (a, i));
        assert forall|k: K| #[trigger] self.index@.contains_key(k) implies {
            let (b, j) = self.index@[k];
            &&& self.live_at(b, j)
            &&& self.entry_at(b, j).unwrap().0 == k
        } by {
            assert(before.index@.contains_key(k));
            let (b, j) = before.index@[k];
            assert(before.live_at(b, j));
            assert(self.tag_at(b, j) == before.tag_at(b, j));
        }
        assert forall|b: int, j: int| #![trigger self.tag_at(b, j)] self.live_at(b, j) implies {
            let k = self.entry_at(b, j).unwrap().0;
            &&& self.index@.contains_key(k)
            &&& self.index@[k] == (b, j)
        } by {
            assert(!(b == a && j == i));
            assert(self.tag_at(b, j) == before.tag_at(b, j));
            assert(before.live_at(b, j));
        }
        assert forall|b: int, j: int| #![trigger self.tag_at(b, j)] self.in_range(b, j) implies {
            let t = self.tag_at(b, j);
            &&& t == 0 || is_live(t) || is_removed(t)
            &&& t == 0 <==> self.entry_at(b, j) is None
        } by {
            if !(b == a && j == i) {
                assert(self.tag_at(b, j) == before.tag_at(b, j));
            }
        }
        assert(self@ =~= before@.remove(key)) by {
            assert forall|k: K| self@.contains_key(k) implies #[trigger] self@[k] == before@.remove(key)[k] by {
                assert(before.index@.contains_key(k));
                let (b, j) = before.index@[k];
                assert(before.live_at(b, j));
                assert(self.tag_at(b, j) == before.tag_at(b, j));
            }
        }
        assert(self.tags() =~= before.tags().remove(key)) by {
            assert forall|k: K| self.tags().contains_key(k) implies #[trigger] self.tags()[k] == before.tags().remove(key)[k] by {
                assert(before.index@.contains_key(k));
                let (b, j) = before.index@[k];
                assert(before.live_at(b, j));
                assert(self.tag_at(b, j) == before.tag_at(b, j));
            }
        }
    }

    /// Marks the entry of a slot as removed; its storage stays until the chain is given up.
    fn mark_removed(&mut self, place: &EntryIterator)
        requires
            old(self).wf(),
            old(self).live_at(place.position().0, place.position().1),
        ensures
            final(self).removed_from(old(self), place.position().0, place.position().1),
            final(self).tag_at(place.position().0, place.position().1) == old(self).tag_at(
                place.position().0,
                place.position().1,
            ) + 128,
            final(self).entry_at(place.position().0, place.position().1) == old(self).entry_at(
                place.position().0,
                place.position().1,
            ),
    {
        proof {
            old(self).lemma_views();
        }
        let a: usize = place.array_index;
        let i: usize = place.slot_index;
        let ghost key = old(self).entry_at(a as int, i as int).unwrap().0;
        match &mut self.arrays {
            Some(arrays) => {
                let array = &mut arrays[a];
                let tag: u8 = array.partial_hash_array[i];
                assert(64 <= tag < 128 ==> tag | 128 == tag + 128) by (bit_vector);
                array.partial_hash_array[i] = tag | REMOVED;
            },
            None => {},
        }
        self.num_entries = self.num_entries - 1;
        self.index = Ghost(self.index@.remove(key));
        proof {
            let old_arrays = old(self).arrays.unwrap()@;
            let new_arrays = self.arrays.unwrap()@;
            assert forall|b: int, j: int| old(self).in_range(b, j) && !(b == a && j == i) implies #[trigger] self.tag_at(
                b,
                j,
            ) == old(self).tag_at(b, j) && self.entry_at(b, j) == old(self).entry_at(b, j) by {
                if b != a {
                    assert(new_arrays[b] == old_arrays[b]);
                }
            }
            assert forall|b: int| 0 <= b < self.num_arrays() implies (#[trigger] self.arrays.unwrap()@[b]).data@.len()
                == ARRAY_SIZE by {
                assert(old_arrays[b].data@.len() == ARRAY_SIZE);
            }
            assert(old(self).index@.contains_key(key));
            self.lemma_removed(old(self), a as int, i as int);
        }
    }

    /// Takes the entry out of a slot and leaves the slot vacant.
    fn erase(&mut self, place: &EntryIterator) -> (entry: (K, V))
        requires
            old(self).wf(),
            old(self).live_at(place.position().0, place.position().1),
        ensures
            final(self).removed_from(old(self), place.position().0, place.position().1),
            final(self).tag_at(place.position().0, place.position().1) == 0,
            old(self).entry_at(place.position().0, place.position().1) == Some(entry),
            old(self)@.contains_key(entry.0),
            old(self)@[entry.0] == entry.1,
            old(self).positions()[entry.0] == place.position(),
    {
        proof {
            old(self).lemma_views();
        }
        let a: usize = place.array_index;
        let i: usize = place.slot_index;
        let ghost key = old(self).entry_at(a as int, i as int).unwrap().0;
        let taken = match &mut self.arrays {
            Some(arrays) => {
                let array = &mut arrays[a];
                array.partial_hash_array[i] = 0;
                array.data[i].take()
            },
            None => None,
        };
        self.num_entries = self.num_entries - 1;
        self.index = Ghost(self.index@.remove(key));
        proof {
            let old_arrays = old(self).arrays.unwrap()@;
            let new_arrays = self.arrays.unwrap()@;
            assert forall|b: int, j: int| old(self).in_range(b, j) && !(b == a && j == i) implies #[trigger] self.tag_at(
                b,
                j,
            ) == old(self).tag_at(b, j) && self.entry_at(b, j) == old(self).entry_at(b, j) by {
                if b != a {
                    assert(new_arrays[b] == old_arrays[b]);
                }
            }
            assert forall|b: int| 0 <= b < self.num_arrays() implies (#[trigger] self.arrays.unwrap()@[b]).data@.len()
                == ARRAY_SIZE by {
                assert(old_arrays[b].data@.len() == ARRAY_SIZE);
            }
            assert(old(self).index@.contains_key(key));
            self.lemma_removed(old(self), a as int, i as int);
            assert(old(self).tag_at(a as int, i as int) != 0);
        }
        match taken {
            Some(entry) => entry,
            None => {
                proof {
                    assert(false);
                }
                unreached()
            },
        }
    }

    /// A chain without a slot that holds a visible entry has no visible entry.
    pub proof fn lemma_no_live_slot(&self)
        requires
            self.wf(),
            forall|a: int, i: int| self.in_range(a, i) ==> !is_live(#[trigger] self.tag_at(a, i)),
        ensures
            self@ =~= Map::<K, V>::empty(),
            self.tags() =~= Map::<K, u8>::empty(),
    {
        assert forall|k: K| !self.index@.contains_key(k) by {
            if self.index@.contains_key(k) {
                let (a, i) = self.index@[k];
                assert(self.live_at(a, i));
            }
        }
    }

    /// Tells whether a slot holds a visible entry, and names the slot if it does.
    fn slot(&self, a: usize, i: usize) -> (place: Option<EntryIterator>)
        requires
            self.wf(),
            self.in_range(a as int, i as int),
        ensures
            place is Some <==> self.live_at(a as int, i as int),
            place is Some ==> place.unwrap().position() == (a as int, i as int),
    {
        let tag: u8 = self.tag(a, i);
        if 64 <= tag && tag < 128 {
            Some(EntryIterator { array_index: a, slot_index: i })
        } else {
            None
        }
    }

    /// Gives the slot arrays up, with every entry that they still store.
    fn take(&mut self) -> (arrays: Option<Vec<DataArray<K, V>>>)
        ensures
            final(self).wf(),
            final(self).spec_killed(),
            final(self)@ == Map::<K, V>::empty(),
            final(self).tags() == Map::<K, u8>::empty(),
            final(self).positions() == Map::<K, (int, int)>::empty(),
            arrays is Some <==> !old(self).spec_killed(),
    {
        let arrays = self.arrays.take();
        self.num_entries = 0;
        self.index = Ghost(Map::empty());
        proof {
            assert(self.index@.dom() =~= Set::empty());
            assert(self@ =~= Map::<K, V>::empty());
            assert(self.tags() =~= Map::<K, u8>::empty());
        }
        arrays
    }
}


/// Whether `copier` can be called on every entry and hands back nothing or an equal entry.
pub open spec fn is_copier<K, V, C: Fn(&K, &V) -> Option<(K, V)>>(copier: C) -> bool {
    &&& forall|k: K, v: V| call_requires(copier, (&k, &v))
    &&& forall|k: K, v: V, copy: Option<(K, V)>|
        call_ensures(copier, (&k, &v), copy) ==> copy is None || copy == Some((k, v))
}

/// Whether `entries` lists the entries of `map`, each once.
pub open spec fn lists<K, V>(entries: Seq<(K, V)>, map: Map<K, V>) -> bool {
    &&& forall|j: int|
        0 <= j < entries.len() ==> map.contains_key((#[trigger] entries[j]).0) && map[entries[j].0] == entries[j].1
    &&& forall|k: K| #[trigger] map.contains_key(k) ==> exists|j: int| 0 <= j < entries.len() && entries[j].0 == k
    &&& forall|j1: int, j2: int|
        0 <= j1 < j2 < entries.len() ==> (#[trigger] entries[j1]).0 != (#[trigger] entries[j2]).0
}

impl<K: PartialEq, V> DataChain<K, V> {
    /// Takes every visible entry out of its slot. Where `copier` hands back a copy of an entry,
    /// the copy is what comes out and the entry itself is dropped.
    fn drain<C: Fn(&K, &V) -> Option<(K, V)>>(&mut self, copier: &C) -> (entries: Vec<(K, V)>)
        requires
            old(self).wf(),
            is_copier(*copier),
        ensures
            final(self).wf(),
            final(self)@ == Map::<K, V>::empty(),
            final(self).tags() == Map::<K, u8>::empty(),
            final(self).num_arrays() == old(self).num_arrays(),
            final(self).spec_killed() == old(self).spec_killed(),
            lists(entries@, old(self)@),
    {
        let mut entries: Vec<(K, V)> = Vec::new();
        let n: usize = self.len();
        let mut a: usize = 0;
        proof {
            old(self).lemma_views();
        }
        while a < n
            invariant
                old(self).wf(),
                self.wf(),
                is_copier(*copier),
                a <= n,
                n == self.num_arrays(),
                self.num_arrays() == old(self).num_arrays(),
                self.spec_killed() == old(self).spec_killed(),
                forall|b: int, j: int| 0 <= b < a && 0 <= j < ARRAY_SIZE ==> !is_live(#[trigger] self.tag_at(b, j)),
                partitions(old(self)@, self@, entries@),
            decreases n - a,
        {
            let mut i: usize = 0;
            while i < ARRAY_SIZE
                invariant
                    old(self).wf(),
                    self.wf(),
                    is_copier(*copier),
                    a < n,
                    i <= ARRAY_SIZE,
                    n == self.num_arrays(),
                    self.num_arrays() == old(self).num_arrays(),
                    self.spec_killed() == old(self).spec_killed(),
                    forall|b: int, j: int| 0 <= b < a && 0 <= j < ARRAY_SIZE ==> !is_live(#[trigger] self.tag_at(b, j)),
                    forall|j: int| 0 <= j < i ==> !is_live(#[trigger] self.tag_at(a as int, j)),
                    partitions(old(self)@, self@, entries@),
                decreases ARRAY_SIZE - i,
            {
                match self.slot(a, i) {
                    Some(place) => {
                        let ghost before = *self;
                        let ghost listed = entries@;
                        proof {
                            self.lemma_views();
                        }
                        let copy = {
                            let entry = self.entry(&place);
                            copier(&entry.0, &entry.1)
                        };
                        let stored = self.erase(&place);
                        let ghost pair = stored;
                        let entry = match copy {
                            Some(copy) => copy,
                            None => stored,
                        };
                        entries.push(entry);
                        proof {
                            assert(entry == pair);
                            self.lemma_views();
                            assert(before.same_except(self, a as int, i as int));
                            assert forall|b: int, j: int| 0 <= b < a && 0 <= j < ARRAY_SIZE implies !is_live(
                                #[trigger] self.tag_at(b, j),
                            ) by {
                                assert(before.in_range(b, j));
                                assert(self.tag_at(b, j) == before.tag_at(b, j));
                            }
                            assert forall|j: int| 0 <= j < i + 1 implies !is_live(#[trigger] self.tag_at(a as int, j)) by {
                                if j < i {
                                    assert(before.in_range(a as int, j));
                                    assert(self.tag_at(a as int, j) == before.tag_at(a as int, j));
                                }
                            }
                            lemma_partitions_listed(old(self)@, before@, listed, pair);
                        }
                    },
                    None => {},
                }
                i += 1;
            }
            a += 1;
        }
        proof {
            self.lemma_no_live_slot();
            assert forall|k: K| #[trigger] old(self)@.contains_key(k) implies exists|j: int|
                0 <= j < entries@.len() && entries@[j].0 == k by {
                assert(!self@.contains_key(k));
            }
        }
        entries
    }

}

/// Whether the entries of `first` are split between `now` and `listed`: each is in one of the
/// two, none in both, and neither holds anything else.
pub open spec fn partitions<K, V>(first: Map<K, V>, now: Map<K, V>, listed: Seq<(K, V)>) -> bool {
    &&& forall|k: K| #[trigger] now.contains_key(k) ==> first.contains_key(k) && first[k] == now[k]
    &&& forall|j: int|
        0 <= j < listed.len() ==> first.contains_key((#[trigger] listed[j]).0) && first[listed[j].0] == listed[j].1
            && !now.contains_key(listed[j].0)
    &&& forall|k: K| #[trigger]
        first.contains_key(k) ==> now.contains_key(k) || exists|j: int| 0 <= j < listed.len() && listed[j].0 == k
    &&& forall|j1: int, j2: int|
        0 <= j1 < j2 < listed.len() ==> (#[trigger] listed[j1]).0 != (#[trigger] listed[j2]).0
}

/// Moving one entry from the map to the end of the list keeps the split.
pub proof fn lemma_partitions_listed<K, V>(first: Map<K, V>, now: Map<K, V>, listed: Seq<(K, V)>, pair: (K, V))
    requires
        partitions(first, now, listed),
        now.contains_key(pair.0),
        now[pair.0] == pair.1,
    ensures
        partitions(first, now.remove(pair.0), listed.push(pair)),
{
    let longer = listed.push(pair);
    let after = now.remove(pair.0);
    assert forall|j: int| 0 <= j < longer.len() implies first.contains_key((#[trigger] longer[j]).0) && first[longer[j].0]
        == longer[j].1 && !after.contains_key(longer[j].0) by {
        if j < listed.len() {
            assert(longer[j] == listed[j]);
        }
    }
    assert forall|k: K| #[trigger] first.contains_key(k) implies after.contains_key(k) || exists|j: int|
        0 <= j < longer.len() && longer[j].0 == k by {
        if k == pair.0 {
            assert(longer[listed.len() as int].0 == k);
        } else if !now.contains_key(k) {
            let j = choose|j: int| 0 <= j < listed.len() && listed[j].0 == k;
            assert(longer[j].0 == k);
        }
    }
    assert forall|j1: int, j2: int| 0 <= j1 < j2 < longer.len() implies (#[trigger] longer[j1]).0 != (
    #[trigger] longer[j2]).0 by {
        assert(longer[j1] == listed[j1]);
        if j2 < listed.len() {
            assert(longer[j2] == listed[j2]);
        }
    }
}

/// Moving the last entry of the list into the map keeps the split.
pub proof fn lemma_partitions_adopted<K, V>(first: Map<K, V>, now: Map<K, V>, listed: Seq<(K, V)>)
    requires
        partitions(first, now, listed),
        listed.len() > 0,
    ensures
        partitions(first, now.insert(listed.last().0, listed.last().1), listed.drop_last()),
{
    let pair = listed.last();
    let shorter = listed.drop_last();
    let after = now.insert(pair.0, pair.1);
    assert(listed[listed.len() - 1] == pair);
    assert forall|j: int| 0 <= j < shorter.len() implies first.contains_key((#[trigger] shorter[j]).0) && first[shorter[j].0]
        == shorter[j].1 && !after.contains_key(shorter[j].0) by {
        assert(shorter[j] == listed[j]);
        assert(listed[j].0 != listed[listed.len() - 1].0);
    }
    assert forall|k: K| #[trigger] first.contains_key(k) implies after.contains_key(k) || exists|j: int|
        0 <= j < shorter.len() && shorter[j].0 == k by {
        if k != pair.0 && !now.contains_key(k) {
            let j = choose|j: int| 0 <= j < listed.len() && listed[j].0 == k;
            assert(shorter[j].0 == k);
        }
    }
    assert forall|j1: int, j2: int| 0 <= j1 < j2 < shorter.len() implies (#[trigger] shorter[j1]).0 != (
    #[trigger] shorter[j2]).0 by {
        assert(shorter[j1] == listed[j1]);
        assert(shorter[j2] == listed[j2]);
    }
}

/// A split with an empty list is no split: the map is what was there at first.
pub proof fn lemma_partitions_done<K, V>(first: Map<K, V>, now: Map<K, V>, listed: Seq<(K, V)>)
    requires
        partitions(first, now, listed),
        listed.len() == 0,
    ensures
        now =~= first,
{
}

/// A bucket of the hash table: a lock word and the chain of slot arrays that it guards.
#[verifier::reject_recursive_types(K)]
pub struct Cell<K, V> {
    wait_queue: usize,
    data: DataChain<K, V>,
}

impl<K, V> View for Cell<K, V> {
    type V = Map<K, V>;

    /// The visible entries of the cell.
    open spec fn view(&self) -> Map<K, V> {
        self.chain()@
    }
}

impl<K, V> Cell<K, V> {
    /// The lock word.
    pub closed spec fn word(&self) -> usize {
        self.wait_queue
    }

    /// The chain of slot arrays.
    pub closed spec fn chain(&self) -> DataChain<K, V> {
        self.data
    }

    /// Whether the cell is locked.
    pub open spec fn spec_locked(&self) -> bool {
        locked(self.word())
    }

    /// The handle of the newest parked waiter, 0 if nobody waits.
    pub open spec fn waiters(&self) -> usize {
        head(self.word())
    }

    /// Whether the cell has been killed.
    pub open spec fn spec_killed(&self) -> bool {
        self.chain().spec_killed()
    }

    /// The tag under which each visible key is stored.
    pub open spec fn tags(&self) -> Map<K, u8> {
        self.chain().tags()
    }

    /// The invariant of the cell, which is that of its chain.
    pub open spec fn wf(&self) -> bool {
        self.chain().wf()
    }

    /// A cell is made of its lock word and its chain.
    pub proof fn lemma_parts(&self, other: &Self)
        requires
            self.word() == other.word(),
            self.chain() == other.chain(),
        ensures
            *self == *other,
    {
    }

    /// An unlocked cell with one slot array and no entry.
    pub fn new() -> (cell: Self)
        ensures
            cell.wf(),
            cell@ == Map::<K, V>::empty(),
            !cell.spec_killed(),
            cell.word() == 0,
            cell.chain().num_arrays() == 1,
            forall|i: int| 0 <= i < ARRAY_SIZE ==> cell.chain().tag_at(0, i) == 0,
    {
        Cell { wait_queue: 0, data: DataChain::new() }
    }

    /// Returns true if the cell has been killed.
    pub fn killed(&self, _guard: &Guard) -> (killed: bool)
        ensures
            killed == self.spec_killed(),
    {
        self.data.arrays.is_none()
    }

    /// Returns true if the cell is locked.
    pub fn locked(&self) -> (held: bool)
        ensures
            held == self.spec_locked(),
    {
        is_locked(self.wait_queue)
    }

    /// The number of visible entries, as far as a `usize` can tell it.
    pub fn num_entries(&self) -> (n: usize)
        requires
            self.wf(),
        ensures
            n == if self@.len() <= usize::MAX {
                self@.len()
            } else {
                usize::MAX as nat
            },
    {
        proof {
            self.data.lemma_views();
        }
        if self.data.num_entries > usize::MAX as u128 {
            usize::MAX
        } else {
            self.data.num_entries as usize
        }
    }

    /// Tells whether the cell holds at least `n` visible entries.
    pub fn holds_at_least(&self, n: usize) -> (enough: bool)
        requires
            self.wf(),
        ensures
            enough == (self@.len() >= n),
    {
        proof {
            self.data.lemma_views();
        }
        self.data.num_entries >= n as u128
    }

    /// The number of slot arrays in the chain.
    pub fn num_arrays(&self) -> (n: usize)
        ensures
            n == self.chain().num_arrays(),
    {
        self.data.len()
    }

    /// Tells whether a slot holds a visible entry, and names the slot if it does.
    pub fn slot(&self, a: usize, i: usize) -> (place: Option<EntryIterator>)
        requires
            self.wf(),
            self.chain().in_range(a as int, i as int),
        ensures
            place is Some <==> self.chain().live_at(a as int, i as int),
            place is Some ==> place.unwrap().position() == (a as int, i as int),
    {
        self.data.slot(a, i)
    }

    /// Wakes every waiter that is parked on the cell: takes the queue off the lock word, which
    /// keeps its lock bit, and signals the frames from the newest to the oldest.
    pub fn wakeup(&mut self, frames: &mut WaitFrames, _guard: &Guard)
        requires
            old(frames).wf(),
            old(frames).valid(old(self).waiters()),
        ensures
            final(self).chain() == old(self).chain(),
            final(self).spec_locked() == old(self).spec_locked(),
            final(self).waiters() == 0,
            old(frames).woken(final(frames), old(self).waiters()),
    {
        let current: usize = head_of(self.wait_queue);
        if current == 0 {
            proof {
                assert(old(frames).chain(0) =~= Seq::<usize>::empty());
            }
            return ;
        }
        self.wait_queue = with_head(self.wait_queue, 0);
        frames.wake_all(current);
    }
}

impl<K, V> Default for Cell<K, V> {
    /// An unlocked cell with one slot array and no entry.
    fn default() -> (cell: Self)
        ensures
            cell.wf(),
            cell@ == Map::<K, V>::empty(),
            !cell.spec_killed(),
            cell.word() == 0,
            cell.chain().num_arrays() == 1,
            forall|i: int| 0 <= i < ARRAY_SIZE ==> cell.chain().tag_at(0, i) == 0,
    {
        Cell::new()
    }
}

impl<K: PartialEq, V> Cell<K, V> {
    /// Looks for the slot that holds `key` under the tag of `partial_hash`, from the head of the
    /// chain to its end.
    pub fn get(&self, key: &K, partial_hash: u8, _guard: &Guard) -> (found: Option<EntryIterator>)
        requires
            self.wf(),
            obeys_concrete_eq::<K>(),
        ensures
            found is Some <==> self@.contains_key(*key) && self.tags()[*key] == tag_of(partial_hash),
            found is Some ==> found.unwrap().position() == self.chain().positions()[*key],
    {
        self.data.get(key, partial_hash)
    }

    /// Tells whether `key` is visible in the cell under the tag of `partial_hash`.
    pub fn holds(&self, key: &K, partial_hash: u8, _guard: &Guard) -> (held: bool)
        requires
            self.wf(),
            obeys_concrete_eq::<K>(),
        ensures
            held <==> self@.contains_key(*key) && self.tags()[*key] == tag_of(partial_hash),
    {
        self.data.get(key, partial_hash).is_some()
    }

    /// The entry in a slot that holds a visible one.
    pub fn entry(&self, place: &EntryIterator) -> (entry: &(K, V))
        requires
            self.wf(),
            self.chain().live_at(place.position().0, place.position().1),
        ensures
            self.chain().entry_at(place.position().0, place.position().1) == Some(*entry),
            self@.contains_key(entry.0),
            self@[entry.0] == entry.1,
            self.chain().positions()[entry.0] == place.position(),
    {
        self.data.entry(place)
    }

    /// Searches for an entry associated with the given key, among the slots that carry the tag
    /// of `partial_hash`.
    pub fn search(&self, key: &K, partial_hash: u8, _guard: &Guard) -> (found: Option<&(K, V)>)
        requires
            self.wf(),
            obeys_concrete_eq::<K>(),
        ensures
            found is Some <==> self@.contains_key(*key) && self.tags()[*key] == tag_of(partial_hash),
            found is Some ==> *found.unwrap() == (*key, self@[*key]),
    {
        proof {
            self.data.lemma_views();
        }
        match self.data.get(key, partial_hash) {
            Some(place) => {
                proof {
                    assert(self.data.positions().contains_key(*key));
                }
                Some(self.data.entry(&place))
            },
            None => None,
        }
    }
}

/// The exclusive lock of a cell, held.
#[verifier::reject_recursive_types(K)]
pub struct CellLocker<'c, K, V> {
    /// The locked cell.
    pub cell_ref: &'c mut Cell<K, V>,
}

impl<'c, K, V> CellLocker<'c, K, V> {
    /// Takes the lock of the cell if nobody holds it.
    pub fn try_lock(cell: &'c mut Cell<K, V>, _guard: &Guard) -> (locker: Option<CellLocker<'c, K, V>>)
        ensures
            locker is Some <==> !old(cell).spec_locked(),
            locker is Some ==> {
                &&& locker.unwrap().cell_ref.chain() == old(cell).chain()
                &&& locker.unwrap().cell_ref.spec_locked()
                &&& locker.unwrap().cell_ref.waiters() == old(cell).waiters()
                &&& *final(cell) == *final(locker.unwrap().cell_ref)
            },
            locker is None ==> *final(cell) == *old(cell),
    {
        let current: usize = cell.wait_queue;
        if is_locked(current) {
            return None;
        }
        cell.wait_queue = with_lock(current);
        Some(CellLocker { cell_ref: cell })
    }

    /// Parks a waiter on the cell and tries once more to take the lock. If that succeeds, every
    /// parked waiter is woken, the new one among them, and the lock is handed out. If not, the
    /// frame stays at the head of the queue and its handle comes back: the waiter may try again
    /// once the frame has been signalled.
    pub fn wait(cell: &'c mut Cell<K, V>, frames: &mut WaitFrames, guard: &Guard) -> (outcome: Result<
        CellLocker<'c, K, V>,
        usize,
    >)
        requires
            old(frames).wf(),
            old(frames).valid(old(cell).waiters()),
            old(frames).len() < usize::MAX / 2,
        ensures
            outcome is Ok <==> !old(cell).spec_locked(),
            final(frames).wf(),
            final(frames).len() == old(frames).len() + 1,
            final(frames).frame((old(frames).len() + 1) as usize).link() == old(cell).waiters(),
            final(frames).chain((old(frames).len() + 1) as usize) == seq![(old(frames).len() + 1) as usize].add(
                old(frames).chain(old(cell).waiters()),
            ),
            forall|h: usize|
                0 < h <= old(frames).len() ==> (#[trigger] final(frames).frame(h)).link() == old(frames).frame(h).link(),
            match outcome {
                Ok(locker) => {
                    &&& locker.cell_ref.chain() == old(cell).chain()
                    &&& locker.cell_ref.spec_locked()
                    &&& locker.cell_ref.waiters() == 0
                    &&& *final(cell) == *final(locker.cell_ref)
                    &&& final(frames).frame((old(frames).len() + 1) as usize).signalled()
                    &&& forall|h: usize|
                        0 < h <= old(frames).len() ==> (#[trigger] final(frames).frame(h)).signalled() == (old(
                            frames,
                        ).frame(h).signalled() || old(frames).chain(old(cell).waiters()).contains(h))
                },
                Err(handle) => {
                    &&& handle == old(frames).len() + 1
                    &&& final(cell).chain() == old(cell).chain()
                    &&& final(cell).spec_locked()
                    &&& final(cell).waiters() == handle
                    &&& !final(frames).frame(handle).signalled()
                    &&& forall|h: usize|
                        0 < h <= old(frames).len() ==> (#[trigger] final(frames).frame(h)).signalled() == old(
                            frames,
                        ).frame(h).signalled()
                },
            },
    {
        let handle: usize = frames.park(head_of(cell.wait_queue));
        let ghost parked = *frames;
        cell.wait_queue = with_head(cell.wait_queue, handle);
        proof {
            assert forall|h: usize| 0 < h <= old(frames).len() implies (#[trigger] parked.frame(h)) == old(frames).frame(h) by {
                assert(parked.frames()[h - 1] == old(frames).frames()[h - 1]);
            }
        }
        if is_locked(cell.wait_queue) {
            return Err(handle);
        }
        cell.wait_queue = with_lock(cell.wait_queue);
        cell.wakeup(frames, guard);
        proof {
            let first = old(frames).chain(old(cell).waiters());
            let all = parked.chain(handle);
            assert(all[0] == handle);
            assert(all.contains(handle));
            old(frames).lemma_chain_stable(&parked, old(cell).waiters());
            parked.lemma_chain_stable(frames, handle);
            assert forall|h: usize| 0 < h <= old(frames).len() implies (#[trigger] frames.frame(h)).signalled() == (old(
                frames,
            ).frame(h).signalled() || first.contains(h)) by {
                assert(parked.frame(h) == old(frames).frame(h));
                if first.contains(h) {
                    let i = choose|i: int| 0 <= i < first.len() && first[i] == h;
                    assert(all[i + 1] == h);
                }
                if all.contains(h) {
                    let i = choose|i: int| 0 <= i < all.len() && all[i] == h;
                    assert(i > 0);
                    assert(first[i - 1] == h);
                }
            }
        }
        Ok(CellLocker { cell_ref: cell })
    }

    /// Locks the given cell, or parks a waiter on it: takes the lock if it is free, and else
    /// does what `wait` does.
    pub fn lock(cell: &'c mut Cell<K, V>, frames: &mut WaitFrames, guard: &Guard) -> (outcome: Result<
        CellLocker<'c, K, V>,
        usize,
    >)
        requires
            old(frames).wf(),
            old(frames).valid(old(cell).waiters()),
            old(frames).len() < usize::MAX / 2,
        ensures
            outcome is Ok <==> !old(cell).spec_locked(),
            final(frames).wf(),
            match outcome {
                Ok(locker) => {
                    &&& locker.cell_ref.chain() == old(cell).chain()
                    &&& locker.cell_ref.spec_locked()
                    &&& locker.cell_ref.waiters() == old(cell).waiters()
                    &&& *final(cell) == *final(locker.cell_ref)
                    &&& *final(frames) == *old(frames)
                },
                Err(handle) => {
                    &&& handle == old(frames).len() + 1
                    &&& final(frames).len() == handle
                    &&& final(cell).chain() == old(cell).chain()
                    &&& final(cell).spec_locked()
                    &&& final(cell).waiters() == handle
                    &&& !final(frames).frame(handle).signalled()
                    &&& final(frames).chain(handle) == seq![handle].add(old(frames).chain(old(cell).waiters()))
                    &&& forall|h: usize|
                        0 < h <= old(frames).len() ==> (#[trigger] final(frames).frame(h)).signalled() == old(
                            frames,
                        ).frame(h).signalled()
                },
            },
    {
        if is_locked(cell.wait_queue) {
            CellLocker::wait(cell, frames, guard)
        } else {
            cell.wait_queue = with_lock(cell.wait_queue);
            Ok(CellLocker { cell_ref: cell })
        }
    }

    /// The locked cell.
    pub fn cell_ref(&self) -> (cell: &Cell<K, V>)
        ensures
            *cell == *old(self.cell_ref),
    {
        &*self.cell_ref
    }

    /// Gives the lock back: clears the lock bit and, if waiters are parked on the cell, wakes
    /// them all.
    pub fn release(self, frames: &mut WaitFrames, guard: &Guard)
        requires
            old(frames).wf(),
            old(frames).valid(old(self.cell_ref).waiters()),
        ensures
            final(self.cell_ref).chain() == old(self.cell_ref).chain(),
            final(self.cell_ref).word() == 0,
            old(frames).woken(final(frames), old(self.cell_ref).waiters()),
    {
        let current: usize = self.cell_ref.wait_queue;
        self.cell_ref.wait_queue = without_lock(current);
        if head_of(current) != 0 {
            self.cell_ref.wakeup(frames, guard);
        } else {
            proof {
                assert(old(frames).chain(0) =~= Seq::<usize>::empty());
            }
        }
    }
}


impl<'c, K: PartialEq, V> CellLocker<'c, K, V> {
    /// Inserts a new key-value pair into the cell.
    pub fn insert(&mut self, key: K, value: V, partial_hash: u8, _guard: &Guard) -> (result: Result<(), (K, V)>)
        requires
            old(self).cell_ref.wf(),
            obeys_concrete_eq::<K>(),
            old(self).cell_ref.chain().insertable(key, partial_hash),
        ensures
            *final(final(self).cell_ref) == *final(old(self).cell_ref),
            final(self).cell_ref.word() == old(self).cell_ref.word(),
            old(self).cell_ref.chain().inserts(&final(self).cell_ref.chain(), key, value, partial_hash, result),
    {
        self.cell_ref.data.insert(key, value, partial_hash)
    }

    /// Removes the entry of `key` by marking its slot: the entry leaves the view, its storage
    /// stays until the cell is killed.
    pub fn remove(&mut self, key: &K, partial_hash: u8, _guard: &Guard) -> (removed: bool)
        requires
            old(self).cell_ref.wf(),
            obeys_concrete_eq::<K>(),
        ensures
            *final(final(self).cell_ref) == *final(old(self).cell_ref),
            final(self).cell_ref.word() == old(self).cell_ref.word(),
            removed <==> old(self).cell_ref@.contains_key(*key) && old(self).cell_ref.tags()[*key] == tag_of(
                partial_hash,
            ),
            removed ==> final(self).cell_ref.chain().removed_from(
                &old(self).cell_ref.chain(),
                old(self).cell_ref.chain().positions()[*key].0,
                old(self).cell_ref.chain().positions()[*key].1,
            ),
            removed ==> final(self).cell_ref@ == old(self).cell_ref@.remove(*key),
            removed ==> final(self).cell_ref.chain().tag_at(
                old(self).cell_ref.chain().positions()[*key].0,
                old(self).cell_ref.chain().positions()[*key].1,
            ) == tag_of(partial_hash) + 128,
            !removed ==> final(self).cell_ref.chain() == old(self).cell_ref.chain(),
    {
        proof {
            self.cell_ref.data.lemma_views();
        }
        match self.cell_ref.data.get(key, partial_hash) {
            Some(place) => {
                proof {
                    assert(self.cell_ref.data.positions().contains_key(*key));
                }
                self.cell_ref.data.mark_removed(&place);
                true
            },
            None => false,
        }
    }

    /// Removes the entry of `key` by taking it out of its slot, which becomes vacant again.
    pub fn extract(&mut self, key: &K, partial_hash: u8, _guard: &Guard) -> (entry: Option<(K, V)>)
        requires
            old(self).cell_ref.wf(),
            obeys_concrete_eq::<K>(),
        ensures
            *final(final(self).cell_ref) == *final(old(self).cell_ref),
            final(self).cell_ref.word() == old(self).cell_ref.word(),
            entry is Some <==> old(self).cell_ref@.contains_key(*key) && old(self).cell_ref.tags()[*key] == tag_of(
                partial_hash,
            ),
            entry is Some ==> entry.unwrap() == (*key, old(self).cell_ref@[*key]),
            entry is Some ==> final(self).cell_ref.chain().removed_from(
                &old(self).cell_ref.chain(),
                old(self).cell_ref.chain().positions()[*key].0,
                old(self).cell_ref.chain().positions()[*key].1,
            ),
            entry is Some ==> final(self).cell_ref@ == old(self).cell_ref@.remove(*key),
            entry is Some ==> final(self).cell_ref.chain().tag_at(
                old(self).cell_ref.chain().positions()[*key].0,
                old(self).cell_ref.chain().positions()[*key].1,
            ) == 0,
            entry is None ==> final(self).cell_ref.chain() == old(self).cell_ref.chain(),
    {
        proof {
            self.cell_ref.data.lemma_views();
        }
        match self.cell_ref.data.get(key, partial_hash) {
            Some(place) => {
                proof {
                    assert(self.cell_ref.data.positions().contains_key(*key));
                }
                Some(self.cell_ref.data.erase(&place))
            },
            None => None,
        }
    }
}

impl<'c, K: PartialEq, V> CellLocker<'c, K, V> {
    /// Takes every visible entry out of the cell. Where `copier` hands back a copy of an entry,
    /// the copy is what comes out and the entry itself is dropped.
    pub fn drain<C: Fn(&K, &V) -> Option<(K, V)>>(&mut self, copier: &C) -> (entries: Vec<(K, V)>)
        requires
            old(self).cell_ref.wf(),
            is_copier(*copier),
        ensures
            *final(final(self).cell_ref) == *final(old(self).cell_ref),
            final(self).cell_ref.word() == old(self).cell_ref.word(),
            final(self).cell_ref.wf(),
            final(self).cell_ref@ == Map::<K, V>::empty(),
            final(self).cell_ref.tags() == Map::<K, u8>::empty(),
            final(self).cell_ref.spec_killed() == old(self).cell_ref.spec_killed(),
            lists(entries@, old(self).cell_ref@),
    {
        self.cell_ref.data.drain(copier)
    }
}

impl<'c, K, V> CellLocker<'c, K, V> {
    /// Marks the entry in the given slot as removed.
    pub fn mark_removed(&mut self, place: &EntryIterator)
        requires
            old(self).cell_ref.wf(),
            old(self).cell_ref.chain().live_at(place.position().0, place.position().1),
        ensures
            *final(final(self).cell_ref) == *final(old(self).cell_ref),
            final(self).cell_ref.word() == old(self).cell_ref.word(),
            final(self).cell_ref.chain().removed_from(
                &old(self).cell_ref.chain(),
                place.position().0,
                place.position().1,
            ),
            final(self).cell_ref.chain().tag_at(place.position().0, place.position().1) == old(
                self,
            ).cell_ref.chain().tag_at(place.position().0, place.position().1) + 128,
            final(self).cell_ref.chain().entry_at(place.position().0, place.position().1) == old(
                self,
            ).cell_ref.chain().entry_at(place.position().0, place.position().1),
    {
        self.cell_ref.data.mark_removed(place);
    }

    /// Takes the entry out of the given slot.
    pub fn erase(&mut self, place: &EntryIterator) -> (entry: (K, V))
        requires
            old(self).cell_ref.wf(),
            old(self).cell_ref.chain().live_at(place.position().0, place.position().1),
        ensures
            *final(final(self).cell_ref) == *final(old(self).cell_ref),
            final(self).cell_ref.word() == old(self).cell_ref.word(),
            final(self).cell_ref.chain().removed_from(
                &old(self).cell_ref.chain(),
                place.position().0,
                place.position().1,
            ),
            final(self).cell_ref.chain().tag_at(place.position().0, place.position().1) == 0,
            old(self).cell_ref.chain().entry_at(place.position().0, place.position().1) == Some(entry),
            old(self).cell_ref@.contains_key(entry.0),
            old(self).cell_ref@[entry.0] == entry.1,
    {
        self.cell_ref.data.erase(place)
    }
}

impl<'c, K: Send + 'static, V: Send + 'static> CellLocker<'c, K, V> {
    /// Kills the cell: takes its slot arrays away, with every entry that they still store, and
    /// hands them to the guard for deferred destruction. A killed cell stays killed.
    pub fn kill(&mut self, guard: &Guard)
        ensures
            *final(final(self).cell_ref) == *final(old(self).cell_ref),
            final(self).cell_ref.word() == old(self).cell_ref.word(),
            final(self).cell_ref.wf(),
            final(self).cell_ref.spec_killed(),
            final(self).cell_ref@ == Map::<K, V>::empty(),
            final(self).cell_ref.tags() == Map::<K, u8>::empty(),
    {
        match self.cell_ref.data.take() {
            Some(arrays) => retire(arrays, guard),
            None => {},
        }
    }
}

} // verus!
