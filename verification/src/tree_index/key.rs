//! Keys of the ordered index: types that embed into the integers in the order of their values.

use vstd::prelude::*;

verus! {

/// A key of the ordered index. Its rank is its place among all keys: one key is smaller than
/// another exactly if its rank is, and no two keys share a rank.
pub trait Key: Copy {
    /// The rank of the key.
    spec fn rank(&self) -> int;

    /// Keys of the same rank are the same key.
    proof fn lemma_rank(a: &Self, b: &Self)
        requires
            a.rank() == b.rank(),
        ensures
            *a == *b,
    ;

    /// Tells whether the key is smaller than `other`.
    fn less(&self, other: &Self) -> (smaller: bool)
        ensures
            smaller == (self.rank() < other.rank()),
    ;
}

impl Key for u64 {
    open spec fn rank(&self) -> int {
        *self as int
    }

    proof fn lemma_rank(a: &Self, b: &Self) {
    }

    fn less(&self, other: &Self) -> (smaller: bool) {
        *self < *other
    }
}

impl Key for u32 {
    open spec fn rank(&self) -> int {
        *self as int
    }

    proof fn lemma_rank(a: &Self, b: &Self) {
    }

    fn less(&self, other: &Self) -> (smaller: bool) {
        *self < *other
    }
}

impl Key for usize {
    open spec fn rank(&self) -> int {
        *self as int
    }

    proof fn lemma_rank(a: &Self, b: &Self) {
    }

    fn less(&self, other: &Self) -> (smaller: bool) {
        *self < *other
    }
}

impl Key for i64 {
    open spec fn rank(&self) -> int {
        *self as int
    }

    proof fn lemma_rank(a: &Self, b: &Self) {
    }

    fn less(&self, other: &Self) -> (smaller: bool) {
        *self < *other
    }
}

} // verus!
