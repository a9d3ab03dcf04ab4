//! What the operations of a node hand back, and the sorted sequences of entries that the nodes
//! are made of.

use crate::tree_index::key::Key;
use vstd::prelude::*;

verus! {

/// The outcome of an insertion.
pub enum InsertResult<K, V> {
    /// The entry is in the node.
    Success,
    /// The key is in the node already; the pair comes back.
    Duplicate(K, V),
    /// The node has no room for the entry; the pair comes back.
    Full(K, V),
    /// The node has retired; the pair comes back.
    Retired(K, V),
    /// The node has made room by splitting one of its children; the pair comes back and is to
    /// be inserted again.
    Retry(K, V),
}

/// The outcome of a removal.
#[derive(Clone, Copy, Debug, PartialEq, Eq, Structural)]
pub enum RemoveResult {
    /// The entry has been removed.
    Success,
    /// The entry has been removed, and the node has retired because it was the last one.
    Retired,
    /// The key is not in the node, or the condition does not hold of its value.
    Fail,
}

/// A place in a node: one entry, borrowed.
pub struct Scanner<'g, K, V> {
    entry: &'g (K, V),
}

impl<'g, K, V> Scanner<'g, K, V> {
    /// The entry that the scanner is at.
    pub closed spec fn entry(&self) -> (K, V) {
        *self.entry
    }

    /// A scanner at the given entry.
    pub fn new(entry: &'g (K, V)) -> (scanner: Self)
        ensures
            scanner.entry() == *entry,
    {
        Scanner { entry }
    }

    /// The key and the value that the scanner is at.
    pub fn get(&self) -> (pair: (&'g K, &'g V))
        ensures
            *pair.0 == self.entry().0,
            *pair.1 == self.entry().1,
    {
        (&self.entry.0, &self.entry.1)
    }
}

/// Whether the keys of `s` are in strictly ascending order.
pub open spec fn sorted<K: Key, V>(s: Seq<(K, V)>) -> bool {
    forall|i: int, j: int| 0 <= i < j < s.len() ==> (#[trigger] s[i]).0.rank() < (#[trigger] s[j]).0.rank()
}

/// Whether `s` has an entry of `key`.
pub open spec fn holds<K: Key, V>(s: Seq<(K, V)>, key: K) -> bool {
    exists|i: int| 0 <= i < s.len() && (#[trigger] s[i]).0 == key
}

/// The value of the first entry of `key` in `s`.
pub open spec fn value_of<K: Key, V>(s: Seq<(K, V)>, key: K) -> V {
    s[choose|i: int| 0 <= i < s.len() && (#[trigger] s[i]).0 == key].1
}

/// The entries of `s` as a map.
pub open spec fn as_map<K: Key, V>(s: Seq<(K, V)>) -> Map<K, V> {
    Map::new(|k: K| holds(s, k), |k: K| value_of(s, k))
}

/// In a sorted sequence every entry is the entry of its key.
pub proof fn lemma_entry<K: Key, V>(s: Seq<(K, V)>, i: int)
    requires
        sorted(s),
        0 <= i < s.len(),
    ensures
        as_map(s).contains_key(s[i].0),
        as_map(s)[s[i].0] == s[i].1,
{
    let j = choose|j: int| 0 <= j < s.len() && (#[trigger] s[j]).0 == s[i].0;
    if j < i {
        assert(s[j].0.rank() < s[i].0.rank());
    }
    if i < j {
        assert(s[i].0.rank() < s[j].0.rank());
    }
}

/// A sorted sequence has as many entries as its map.
pub proof fn lemma_len<K: Key, V>(s: Seq<(K, V)>)
    requires
        sorted(s),
    ensures
        as_map(s).dom().finite(),
        as_map(s).len() == s.len(),
    decreases s.len(),
{
    if s.len() == 0 {
        assert(as_map(s).dom() =~= Set::<K>::empty());
    } else {
        let shorter = s.drop_last();
        let last = s.last();
        assert forall|i: int, j: int| 0 <= i < j < shorter.len() implies (#[trigger] shorter[i]).0.rank() < (
        #[trigger] shorter[j]).0.rank() by {
            assert(shorter[i] == s[i] && shorter[j] == s[j]);
        }
        lemma_len(shorter);
        assert(!holds(shorter, last.0)) by {
            if holds(shorter, last.0) {
                let i = choose|i: int| 0 <= i < shorter.len() && (#[trigger] shorter[i]).0 == last.0;
                assert(shorter[i] == s[i]);
                assert(s[i].0.rank() < s[s.len() - 1].0.rank());
            }
        }
        assert(as_map(s).dom() =~= as_map(shorter).dom().insert(last.0)) by {
            assert forall|k: K| as_map(s).dom().contains(k) <==> as_map(shorter).dom().insert(last.0).contains(k) by {
                if holds(s, k) {
                    let i = choose|i: int| 0 <= i < s.len() && (#[trigger] s[i]).0 == k;
                    if i < shorter.len() {
                        assert(shorter[i] == s[i]);
                    }
                }
                if holds(shorter, k) {
                    let i = choose|i: int| 0 <= i < shorter.len() && (#[trigger] shorter[i]).0 == k;
                    assert(s[i] == shorter[i]);
                }
                if k == last.0 {
                    assert(s[s.len() - 1].0 == k);
                }
            }
        }
    }
}

/// A sorted sequence behind a sorted sequence of smaller keys makes a sorted sequence, which
/// holds what the two hold.
pub proof fn lemma_appended<K: Key, V>(lower: Seq<(K, V)>, upper: Seq<(K, V)>)
    requires
        sorted(lower),
        sorted(upper),
        forall|i: int, j: int|
            0 <= i < lower.len() && 0 <= j < upper.len() ==> (#[trigger] lower[i]).0.rank() < (#[trigger] upper[j]).0.rank(),
    ensures
        sorted(lower.add(upper)),
        as_map(lower.add(upper)) =~= as_map(lower).union_prefer_right(as_map(upper)),
{
    let whole = lower.add(upper);
    let n = lower.len() as int;
    assert forall|i: int, j: int| 0 <= i < j < whole.len() implies (#[trigger] whole[i]).0.rank() < (#[trigger] whole[j]).0.rank() by {
        if j < n {
            assert(whole[i] == lower[i] && whole[j] == lower[j]);
        } else if i >= n {
            assert(whole[i] == upper[i - n] && whole[j] == upper[j - n]);
        } else {
            assert(whole[i] == lower[i] && whole[j] == upper[j - n]);
        }
    }
    assert forall|k: K| holds(whole, k) <==> holds(lower, k) || holds(upper, k) by {
        if holds(whole, k) {
            let i = choose|i: int| 0 <= i < whole.len() && (#[trigger] whole[i]).0 == k;
            if i < n {
                assert(lower[i] == whole[i]);
            } else {
                assert(upper[i - n] == whole[i]);
            }
        }
        if holds(lower, k) {
            let i = choose|i: int| 0 <= i < lower.len() && (#[trigger] lower[i]).0 == k;
            assert(whole[i] == lower[i]);
        }
        if holds(upper, k) {
            let i = choose|i: int| 0 <= i < upper.len() && (#[trigger] upper[i]).0 == k;
            assert(whole[i + n] == upper[i]);
        }
    }
    assert forall|k: K| holds(whole, k) implies #[trigger] as_map(whole)[k] == as_map(lower).union_prefer_right(
        as_map(upper),
    )[k] by {
        let i = choose|i: int| 0 <= i < whole.len() && (#[trigger] whole[i]).0 == k;
        lemma_entry(whole, i);
        if i < n {
            assert(lower[i] == whole[i]);
            lemma_entry(lower, i);
            if holds(upper, k) {
                let j = choose|j: int| 0 <= j < upper.len() && (#[trigger] upper[j]).0 == k;
                assert(lower[i].0.rank() < upper[j].0.rank());
            }
        } else {
            assert(upper[i - n] == whole[i]);
            lemma_entry(upper, i - n);
        }
    }
}

/// Where `key` belongs in a sorted sequence: behind all smaller keys and before all others.
pub open spec fn is_place<K: Key, V>(s: Seq<(K, V)>, key: K, place: int) -> bool {
    &&& 0 <= place <= s.len()
    &&& forall|j: int| 0 <= j < place ==> (#[trigger] s[j]).0.rank() < key.rank()
    &&& forall|j: int| place <= j < s.len() ==> key.rank() <= (#[trigger] s[j]).0.rank()
}

/// A key is in a sorted sequence exactly if it is at its place.
pub proof fn lemma_place<K: Key, V>(s: Seq<(K, V)>, key: K, place: int)
    requires
        sorted(s),
        is_place(s, key, place),
    ensures
        holds(s, key) <==> place < s.len() && s[place].0 == key,
{
    if holds(s, key) {
        let j = choose|j: int| 0 <= j < s.len() && (#[trigger] s[j]).0 == key;
        if j < place {
            assert(s[j].0.rank() < key.rank());
        }
        if j > place {
            assert(s[place].0.rank() < s[j].0.rank());
            assert(key.rank() <= s[place].0.rank());
        }
    }
}

/// Putting an entry at the place of its key, which is not in the sequence, keeps the sequence
/// sorted and adds the entry to the map.
pub proof fn lemma_inserted<K: Key, V>(s: Seq<(K, V)>, place: int, key: K, value: V)
    requires
        sorted(s),
        is_place(s, key, place),
        !holds(s, key),
    ensures
        sorted(s.insert(place, (key, value))),
        as_map(s.insert(place, (key, value))) =~= as_map(s).insert(key, value),
{
    let t = s.insert(place, (key, value));
    lemma_place(s, key, place);
    assert forall|i: int, j: int| 0 <= i < j < t.len() implies (#[trigger] t[i]).0.rank() < (#[trigger] t[j]).0.rank() by {
        let a = if i < place {
            i
        } else {
            i - 1
        };
        let b = if j < place {
            j
        } else {
            j - 1
        };
        if i != place && j != place {
            assert(t[i] == s[a]);
            assert(t[j] == s[b]);
            assert(s[a].0.rank() < s[b].0.rank());
        } else if i == place {
            assert(t[j] == s[b]);
            assert(key.rank() <= s[b].0.rank());
            if key.rank() == s[b].0.rank() {
                K::lemma_rank(&key, &s[b].0);
            }
        } else {
            assert(t[i] == s[a]);
        }
    }
    assert forall|k: K| holds(t, k) <==> as_map(s).insert(key, value).contains_key(k) by {
        if holds(t, k) {
            let i = choose|i: int| 0 <= i < t.len() && (#[trigger] t[i]).0 == k;
            if i < place {
                assert(s[i] == t[i]);
            } else if i > place {
                assert(s[i - 1] == t[i]);
            }
        }
        if k == key {
            assert(t[place].0 == k);
        } else if holds(s, k) {
            let i = choose|i: int| 0 <= i < s.len() && (#[trigger] s[i]).0 == k;
            if i < place {
                assert(t[i] == s[i]);
            } else {
                assert(t[i + 1] == s[i]);
            }
        }
    }
    assert forall|k: K| holds(t, k) implies #[trigger] as_map(t)[k] == as_map(s).insert(key, value)[k] by {
        let i = choose|i: int| 0 <= i < t.len() && (#[trigger] t[i]).0 == k;
        lemma_entry(t, i);
        if i < place {
            assert(s[i] == t[i]);
            lemma_entry(s, i);
        } else if i > place {
            assert(s[i - 1] == t[i]);
            lemma_entry(s, i - 1);
        }
    }
}

/// Taking an entry out of a sorted sequence keeps it sorted and takes the key out of the map.
pub proof fn lemma_removed<K: Key, V>(s: Seq<(K, V)>, place: int)
    requires
        sorted(s),
        0 <= place < s.len(),
    ensures
        sorted(s.remove(place)),
        as_map(s.remove(place)) =~= as_map(s).remove(s[place].0),
{
    let t = s.remove(place);
    let key = s[place].0;
    assert forall|i: int, j: int| 0 <= i < j < t.len() implies (#[trigger] t[i]).0.rank() < (#[trigger] t[j]).0.rank() by {
        let a = if i < place {
            i
        } else {
            i + 1
        };
        let b = if j < place {
            j
        } else {
            j + 1
        };
        assert(t[i] == s[a]);
        assert(t[j] == s[b]);
        assert(s[a].0.rank() < s[b].0.rank());
    }
    assert forall|k: K| holds(t, k) <==> as_map(s).remove(key).contains_key(k) by {
        if holds(t, k) {
            let i = choose|i: int| 0 <= i < t.len() && (#[trigger] t[i]).0 == k;
            let a = if i < place {
                i
            } else {
                i + 1
            };
            assert(s[a] == t[i]);
            if a < place {
                assert(s[a].0.rank() < s[place].0.rank());
            } else {
                assert(s[place].0.rank() < s[a].0.rank());
            }
        }
        if k != key && holds(s, k) {
            let i = choose|i: int| 0 <= i < s.len() && (#[trigger] s[i]).0 == k;
            if i < place {
                assert(t[i] == s[i]);
            } else {
                assert(t[i - 1] == s[i]);
            }
        }
    }
    assert forall|k: K| holds(t, k) implies #[trigger] as_map(t)[k] == as_map(s).remove(key)[k] by {
        let i = choose|i: int| 0 <= i < t.len() && (#[trigger] t[i]).0 == k;
        let a = if i < place {
            i
        } else {
            i + 1
        };
        lemma_entry(t, i);
        assert(s[a] == t[i]);
        lemma_entry(s, a);
    }
}

} // verus!
