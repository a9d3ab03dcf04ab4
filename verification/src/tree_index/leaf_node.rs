//! The leaf node: a bounded, sorted array of entries.

use crate::tree_index::key::Key;
use crate::tree_index::leaf::{
    as_map, is_place, lemma_appended, lemma_entry, lemma_inserted, lemma_len, lemma_place, lemma_removed, sorted,
    InsertResult, Scanner,
};
use vstd::prelude::*;

verus! {

/// The number of entries that a leaf node has room for.
pub const DIMENSION: usize = 14;

/// A leaf node. A leaf node that has lost its last entry has retired: it holds nothing and
/// takes nothing.
pub struct LeafNode<K, V> {
    entries: Vec<(K, V)>,
    retired: bool,
}

impl<K: Key, V> View for LeafNode<K, V> {
    type V = Map<K, V>;

    /// The entries of the node.
    open spec fn view(&self) -> Map<K, V> {
        as_map(self.entries())
    }
}

impl<K: Key, V> LeafNode<K, V> {
    /// The entries in the order in which the node keeps them.
    pub closed spec fn entries(&self) -> Seq<(K, V)> {
        self.entries@
    }

    /// Whether the node has retired.
    pub closed spec fn spec_retired(&self) -> bool {
        self.retired
    }

    /// The invariant: at most `DIMENSION` entries, sorted by their keys, and none in a node that
    /// has retired.
    pub open spec fn wf(&self) -> bool {
        &&& self.entries().len() <= DIMENSION
        &&& sorted(self.entries())
        &&& self.spec_retired() ==> self.entries().len() == 0
    }

    /// Whether the node has no room left.
    pub open spec fn is_full(&self) -> bool {
        self@.len() >= DIMENSION
    }

    /// A well-formed node has as many entries as its view.
    pub proof fn lemma_size(&self)
        requires
            self.wf(),
        ensures
            self@.dom().finite(),
            self@.len() == self.entries().len(),
    {
        lemma_len(self.entries());
    }

    /// An empty leaf node.
    pub fn new() -> (node: Self)
        ensures
            node.wf(),
            node.entries() == Seq::<(K, V)>::empty(),
            node@ == Map::<K, V>::empty(),
            !node.spec_retired(),
    {
        let node = LeafNode { entries: Vec::new(), retired: false };
        proof {
            assert(node@ =~= Map::<K, V>::empty());
        }
        node
    }

    /// Checks if the node has retired.
    pub fn retired(&self) -> (retired: bool)
        ensures
            retired == self.spec_retired(),
    {
        self.retired
    }

    /// The number of entries.
    pub fn len(&self) -> (n: usize)
        requires
            self.wf(),
        ensures
            n == self.entries().len(),
            n == self@.len(),
    {
        proof {
            self.lemma_size();
        }
        self.entries.len()
    }

    /// Finds the place of `key` among the entries, and tells whether the key is there.
    pub fn find(&self, key: &K) -> (found: (usize, bool))
        requires
            self.wf(),
        ensures
            is_place(self.entries(), *key, found.0 as int),
            found.1 == self@.contains_key(*key),
            found.1 ==> found.0 < self.entries().len() && self.entries()[found.0 as int].0 == *key,
    {
        let mut i: usize = 0;
        while i < self.entries.len()
            invariant
                self.wf(),
                i <= self.entries().len(),
                forall|j: int| 0 <= j < i ==> (#[trigger] self.entries()[j]).0.rank() < key.rank(),
            decreases self.entries().len() - i,
        {
            if !self.entries[i].0.less(key) {
                let same: bool = !key.less(&self.entries[i].0);
                proof {
                    assert forall|j: int| i <= j < self.entries().len() implies key.rank() <= (
                    #[trigger] self.entries()[j]).0.rank() by {
                        if j > i {
                            assert(self.entries()[i as int].0.rank() < self.entries()[j].0.rank());
                        }
                    }
                    if same {
                        K::lemma_rank(key, &self.entries()[i as int].0);
                    }
                    lemma_place(self.entries(), *key, i as int);
                }
                return (i, same);
            }
            i += 1;
        }
        proof {
            lemma_place(self.entries(), *key, i as int);
        }
        (i, false)
    }

    /// Searches for an entry associated with the given key.
    pub fn search(&self, key: &K) -> (value: Option<&V>)
        requires
            self.wf(),
        ensures
            value is Some <==> self@.contains_key(*key),
            value is Some ==> *value.unwrap() == self@[*key],
    {
        let (place, found): (usize, bool) = self.find(key);
        if found {
            proof {
                lemma_entry(self.entries(), place as int);
            }
            Some(&self.entries[place].1)
        } else {
            None
        }
    }

    /// Returns the entry at the given place.
    pub fn at(&self, place: usize) -> (scanner: Scanner<'_, K, V>)
        requires
            place < self.entries().len(),
        ensures
            scanner.entry() == self.entries()[place as int],
    {
        Scanner::new(&self.entries[place])
    }

    /// Returns the entry of the smallest key.
    pub fn min(&self) -> (scanner: Option<Scanner<'_, K, V>>)
        requires
            self.wf(),
        ensures
            scanner is Some <==> self.entries().len() > 0,
            scanner is Some ==> scanner.unwrap().entry() == self.entries()[0],
    {
        if self.entries.len() > 0 {
            Some(Scanner::new(&self.entries[0]))
        } else {
            None
        }
    }

    /// Returns the entry of the largest key that is not larger than `key`.
    pub fn max_le_appr(&self, key: &K) -> (scanner: Option<Scanner<'_, K, V>>)
        requires
            self.wf(),
        ensures
            scanner is Some <==> self.entries().len() > 0 && self.entries()[0].0.rank() <= key.rank(),
            scanner is Some ==> exists|i: int|
                {
                    &&& 0 <= i < self.entries().len()
                    &&& scanner.unwrap().entry() == #[trigger] self.entries()[i]
                    &&& self.entries()[i].0.rank() <= key.rank()
                    &&& i + 1 < self.entries().len() ==> key.rank() < self.entries()[i + 1].0.rank()
                },
    {
        let (place, found): (usize, bool) = self.find(key);
        if found {
            proof {
                if place + 1 < self.entries().len() {
                    assert(self.entries()[place as int].0.rank() < self.entries()[place + 1].0.rank());
                }
                if place > 0 {
                    assert(self.entries()[0].0.rank() < self.entries()[place as int].0.rank());
                }
            }
            Some(Scanner::new(&self.entries[place]))
        } else if place > 0 {
            proof {
                lemma_place(self.entries(), *key, place as int);
                if place < self.entries().len() {
                    let next = self.entries()[place as int].0;
                    if next.rank() == key.rank() {
                        K::lemma_rank(&next, key);
                    }
                }
                if place > 1 {
                    assert(self.entries()[0].0.rank() < self.entries()[place - 1].0.rank());
                }
            }
            Some(Scanner::new(&self.entries[place - 1]))
        } else {
            proof {
                lemma_place(self.entries(), *key, 0);
                if self.entries().len() > 0 {
                    let first = self.entries()[0].0;
                    if first.rank() == key.rank() {
                        K::lemma_rank(&first, key);
                    }
                }
            }
            None
        }
    }

    /// Returns the entry of the least key that is larger than `key`: the entry that a scan comes
    /// to after `key`.
    pub fn next(&self, key: &K) -> (scanner: Option<Scanner<'_, K, V>>)
        requires
            self.wf(),
        ensures
            scanner is None <==> forall|j: int|
                0 <= j < self.entries().len() ==> (#[trigger] self.entries()[j]).0.rank() <= key.rank(),
            scanner is Some ==> exists|i: int|
                {
                    &&& 0 <= i < self.entries().len()
                    &&& scanner.unwrap().entry() == #[trigger] self.entries()[i]
                    &&& key.rank() < self.entries()[i].0.rank()
                    &&& i > 0 ==> self.entries()[i - 1].0.rank() <= key.rank()
                },
    {
        let (place, found): (usize, bool) = self.find(key);
        let at: usize = if found {
            place + 1
        } else {
            place
        };
        proof {
            lemma_place(self.entries(), *key, place as int);
            if !found && place < self.entries().len() {
                let here = self.entries()[place as int].0;
                if here.rank() == key.rank() {
                    K::lemma_rank(&here, key);
                }
            }
            if found && place + 1 < self.entries().len() {
                assert(self.entries()[place as int].0.rank() < self.entries()[place + 1].0.rank());
            }
        }
        if at < self.entries.len() {
            proof {
                assert(self.entries()[at as int].0.rank() > key.rank());
            }
            Some(Scanner::new(&self.entries[at]))
        } else {
            None
        }
    }

    /// What `insert` does: a node that has retired takes nothing, a key that is there is not
    /// inserted again, a full node takes nothing more, and else the entry is added. Whenever the
    /// entry is not added, the node stays as it is and the pair comes back.
    pub open spec fn inserts(&self, after: &Self, key: K, value: V, result: InsertResult<K, V>) -> bool {
        &&& after.wf()
        &&& after.spec_retired() == self.spec_retired()
        &&& if self.spec_retired() {
            result == InsertResult::Retired(key, value) && after.entries() == self.entries()
        } else if self@.contains_key(key) {
            result == InsertResult::Duplicate(key, value) && after.entries() == self.entries()
        } else if self.is_full() {
            result == InsertResult::Full(key, value) && after.entries() == self.entries()
        } else {
            &&& result == InsertResult::<K, V>::Success
            &&& after@ == self@.insert(key, value)
            &&& after.entries().len() == self.entries().len() + 1
        }
    }

    /// Inserts a key-value pair.
    pub fn insert(&mut self, key: K, value: V) -> (result: InsertResult<K, V>)
        requires
            old(self).wf(),
        ensures
            old(self).inserts(final(self), key, value, result),
    {
        if self.retired {
            return InsertResult::Retired(key, value);
        }
        let (place, found): (usize, bool) = self.find(&key);
        if found {
            return InsertResult::Duplicate(key, value);
        }
        proof {
            self.lemma_size();
        }
        if self.entries.len() == DIMENSION {
            return InsertResult::Full(key, value);
        }
        proof {
            lemma_inserted(self.entries(), place as int, key, value);
        }
        self.entries.insert(place, (key, value));
        InsertResult::Success
    }

    /// Removes the entry of `key` if `condition` holds of its value. Returns the entry if it has
    /// been removed.
    pub fn take_if<F: Fn(&V) -> bool>(&mut self, key: &K, condition: &F) -> (taken: Option<(K, V)>)
        requires
            old(self).wf(),
            old(self)@.contains_key(*key) ==> call_requires(*condition, (&old(self)@[*key],)),
        ensures
            final(self).wf(),
            taken is Some ==> {
                &&& old(self)@.contains_key(*key)
                &&& taken.unwrap() == (*key, old(self)@[*key])
                &&& call_ensures(*condition, (&old(self)@[*key],), true)
                &&& final(self)@ == old(self)@.remove(*key)
                &&& final(self).entries().len() + 1 == old(self).entries().len()
                &&& final(self).spec_retired() == (final(self).entries().len() == 0)
            },
            taken is None ==> {
                &&& final(self).entries() == old(self).entries()
                &&& final(self).spec_retired() == old(self).spec_retired()
                &&& old(self)@.contains_key(*key) ==> call_ensures(*condition, (&old(self)@[*key],), false)
            },
    {
        let (place, found): (usize, bool) = self.find(key);
        if !found {
            return None;
        }
        proof {
            lemma_entry(self.entries(), place as int);
        }
        if !condition(&self.entries[place].1) {
            return None;
        }
        proof {
            lemma_removed(self.entries(), place as int);
        }
        let entry = self.entries.remove(place);
        if self.entries.len() == 0 {
            self.retired = true;
        }
        Some(entry)
    }

    /// Takes the entries of `upper`, all of which have larger keys, back behind the entries of
    /// this node: the way back from a split.
    pub fn rollback(&mut self, upper: LeafNode<K, V>)
        requires
            old(self).wf(),
            upper.wf(),
            !old(self).spec_retired(),
            old(self).entries().len() + upper.entries().len() <= DIMENSION,
            forall|i: int, j: int|
                0 <= i < old(self).entries().len() && 0 <= j < upper.entries().len() ==> (
                #[trigger] old(self).entries()[i]).0.rank() < (#[trigger] upper.entries()[j]).0.rank(),
        ensures
            final(self).wf(),
            !final(self).spec_retired(),
            final(self).entries() == old(self).entries().add(upper.entries()),
            final(self)@ == old(self)@.union_prefer_right(upper@),
    {
        proof {
            lemma_appended(self.entries(), upper.entries());
        }
        let mut upper = upper;
        self.entries.append(&mut upper.entries);
    }

    /// Moves the upper half of the entries of a full node into a new node, and returns the new
    /// node with the largest key that stays.
    pub fn split(&mut self) -> (split: (K, LeafNode<K, V>))
        requires
            old(self).wf(),
            old(self).is_full(),
        ensures
            final(self).wf(),
            split.1.wf(),
            final(self).entries().len() > 0,
            split.1.entries().len() > 0,
            !final(self).spec_retired(),
            !split.1.spec_retired(),
            final(self).entries() == old(self).entries().subrange(0, DIMENSION as int / 2),
            split.1.entries() == old(self).entries().subrange(DIMENSION as int / 2, DIMENSION as int),
            split.0 == old(self).entries()[DIMENSION as int / 2 - 1].0,
    {
        proof {
            self.lemma_size();
        }
        let upper = self.entries.split_off(DIMENSION / 2);
        let bound: K = self.entries[DIMENSION / 2 - 1].0;
        let node = LeafNode { entries: upper, retired: false };
        proof {
            let s = old(self).entries();
            assert(self.entries() =~= s.subrange(0, 7));
            assert(node.entries() =~= s.subrange(7, 14));
            assert forall|i: int, j: int| 0 <= i < j < self.entries().len() implies (#[trigger] self.entries()[i]).0.rank()
                < (#[trigger] self.entries()[j]).0.rank() by {
                assert(self.entries()[i] == s[i]);
                assert(self.entries()[j] == s[j]);
            }
            assert forall|i: int, j: int| 0 <= i < j < node.entries().len() implies (#[trigger] node.entries()[i]).0.rank()
                < (#[trigger] node.entries()[j]).0.rank() by {
                assert(node.entries()[i] == s[i + 7]);
                assert(node.entries()[j] == s[j + 7]);
            }
        }
        (bound, node)
    }
}

} // verus!
