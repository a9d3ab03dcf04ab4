//! The nodes of the tree: internal nodes that route keys to their children, over leaf nodes.
//!
//! An internal node keeps its children in the order of their keys, with a bound between each
//! two of them: the keys of a child are larger than the bound before it and not larger than the
//! bound behind it. The last child is unbounded. A child that has lost its last entry is taken
//! out of its parent, so every child of an internal node holds an entry.
//!
//! A node that has no room left is split: its upper half moves into a new node, which is then
//! committed behind it in its parent, or rolled back into it.

use crate::ebr::retire;
use crate::tree_index::key::Key;
use crate::tree_index::leaf::{InsertResult, RemoveResult, Scanner};
use crate::tree_index::leaf_node::{LeafNode, DIMENSION};
use crossbeam_epoch::Guard;
use vstd::prelude::*;

verus! {

/// Whether `bounds` are in strictly ascending order.
pub open spec fn ascending<K: Key>(bounds: Seq<K>) -> bool {
    forall|i: int, j: int| 0 <= i < j < bounds.len() ==> (#[trigger] bounds[i]).rank() < (#[trigger] bounds[j]).rank()
}

/// Whether `child` is the index of the child that is in charge of `key`: the bounds before it
/// are smaller than the key, and the bounds from it on are not.
pub open spec fn is_route<K: Key>(bounds: Seq<K>, key: K, child: int) -> bool {
    &&& 0 <= child <= bounds.len()
    &&& forall|j: int| 0 <= j < child ==> (#[trigger] bounds[j]).rank() < key.rank()
    &&& forall|j: int| child <= j < bounds.len() ==> key.rank() <= (#[trigger] bounds[j]).rank()
}

/// The index of the child that is in charge of `key`.
pub open spec fn route<K: Key>(bounds: Seq<K>, key: K) -> int {
    choose|child: int| is_route(bounds, key, child)
}

/// No key has two routes.
pub proof fn lemma_route_unique<K: Key>(bounds: Seq<K>, key: K, a: int, b: int)
    requires
        is_route(bounds, key, a),
        is_route(bounds, key, b),
    ensures
        a == b,
{
    if a < b {
        assert(bounds[a].rank() < key.rank());
    }
    if b < a {
        assert(bounds[b].rank() < key.rank());
    }
}

/// Among ascending bounds every key has its route.
pub proof fn lemma_route<K: Key>(bounds: Seq<K>, key: K)
    requires
        ascending(bounds),
    ensures
        is_route(bounds, key, route(bounds, key)),
{
    lemma_route_from(bounds, key, 0);
}

/// Among ascending bounds of which the first `from` are smaller than the key, the key has its
/// route.
proof fn lemma_route_from<K: Key>(bounds: Seq<K>, key: K, from: int)
    requires
        ascending(bounds),
        0 <= from <= bounds.len(),
        forall|j: int| 0 <= j < from ==> (#[trigger] bounds[j]).rank() < key.rank(),
    ensures
        exists|child: int| is_route(bounds, key, child),
    decreases bounds.len() - from,
{
    if from == bounds.len() || key.rank() <= bounds[from].rank() {
        assert forall|j: int| from <= j < bounds.len() implies key.rank() <= (#[trigger] bounds[j]).rank() by {
            if j > from {
                assert(bounds[from].rank() < bounds[j].rank());
            }
        }
        assert(is_route(bounds, key, from));
    } else {
        lemma_route_from(bounds, key, from + 1);
    }
}

/// What a new bound between two bounds does to the routes: keys that were routed before the
/// new bound stay where they were, keys that were routed behind it move on by one, and the keys
/// that were routed to its place part at the new bound.
pub proof fn lemma_route_inserted<K: Key>(bounds: Seq<K>, at: int, bound: K, key: K)
    requires
        ascending(bounds),
        0 <= at <= bounds.len(),
        at > 0 ==> bounds[at - 1].rank() < bound.rank(),
        at < bounds.len() ==> bound.rank() < bounds[at].rank(),
    ensures
        ascending(bounds.insert(at, bound)),
        route(bounds.insert(at, bound), key) == if route(bounds, key) < at {
            route(bounds, key)
        } else if route(bounds, key) > at {
            route(bounds, key) + 1
        } else if key.rank() <= bound.rank() {
            at
        } else {
            at + 1
        },
{
    let longer = bounds.insert(at, bound);
    assert forall|i: int, j: int| 0 <= i < j < longer.len() implies (#[trigger] longer[i]).rank() < (
    #[trigger] longer[j]).rank() by {
        let a = if i < at {
            i
        } else {
            i - 1
        };
        let b = if j < at {
            j
        } else {
            j - 1
        };
        if i != at && j != at {
            assert(longer[i] == bounds[a] && longer[j] == bounds[b]);
            assert(bounds[a].rank() < bounds[b].rank());
        } else if i == at {
            assert(longer[j] == bounds[b]);
            if b > at {
                assert(bounds[at].rank() < bounds[b].rank());
            }
        } else {
            assert(longer[i] == bounds[a]);
            if a < at - 1 {
                assert(bounds[a].rank() < bounds[at - 1].rank());
            }
        }
    }
    lemma_route(bounds, key);
    lemma_route(longer, key);
    let r = route(bounds, key);
    let moved = if r < at {
        r
    } else if r > at {
        r + 1
    } else if key.rank() <= bound.rank() {
        at
    } else {
        at + 1
    };
    assert(is_route(longer, key, moved)) by {
        assert forall|j: int| 0 <= j < moved implies (#[trigger] longer[j]).rank() < key.rank() by {
            if j < at {
                assert(longer[j] == bounds[j]);
                if j >= r {
                    assert(r == at);
                    assert(bounds[j].rank() <= bounds[at - 1].rank()) by {
                        if j < at - 1 {
                            assert(bounds[j].rank() < bounds[at - 1].rank());
                        }
                    }
                }
            } else if j > at {
                assert(longer[j] == bounds[j - 1]);
            } else {
                if r > at {
                    assert(bounds[at].rank() < key.rank());
                }
            }
        }
        assert forall|j: int| moved <= j < longer.len() implies key.rank() <= (#[trigger] longer[j]).rank() by {
            if j < at {
                assert(longer[j] == bounds[j]);
            } else if j > at {
                assert(longer[j] == bounds[j - 1]);
                if r <= at {
                    if j - 1 > at {
                        assert(bounds[at].rank() < bounds[j - 1].rank());
                    }
                }
            } else {
                if r < at {
                    assert(key.rank() <= bounds[r].rank());
                    if r < at - 1 {
                        assert(bounds[r].rank() < bounds[at - 1].rank());
                    }
                }
            }
        }
    }
    lemma_route_unique(longer, key, moved, route(longer, key));
}

/// What taking a bound away does to the routes: keys that were routed up to the place of the
/// bound stay where they were, and the keys that were routed behind it move back by one.
pub proof fn lemma_route_removed<K: Key>(bounds: Seq<K>, at: int, key: K)
    requires
        ascending(bounds),
        0 <= at < bounds.len(),
    ensures
        ascending(bounds.remove(at)),
        route(bounds.remove(at), key) == if route(bounds, key) <= at {
            route(bounds, key)
        } else {
            route(bounds, key) - 1
        },
{
    let shorter = bounds.remove(at);
    assert forall|i: int, j: int| 0 <= i < j < shorter.len() implies (#[trigger] shorter[i]).rank() < (
    #[trigger] shorter[j]).rank() by {
        let a = if i < at {
            i
        } else {
            i + 1
        };
        let b = if j < at {
            j
        } else {
            j + 1
        };
        assert(shorter[i] == bounds[a] && shorter[j] == bounds[b]);
        assert(bounds[a].rank() < bounds[b].rank());
    }
    lemma_route(bounds, key);
    lemma_route(shorter, key);
    let r = route(bounds, key);
    let moved = if r <= at {
        r
    } else {
        r - 1
    };
    assert(is_route(shorter, key, moved)) by {
        assert forall|j: int| 0 <= j < moved implies (#[trigger] shorter[j]).rank() < key.rank() by {
            if j < at {
                assert(shorter[j] == bounds[j]);
            } else {
                assert(shorter[j] == bounds[j + 1]);
            }
        }
        assert forall|j: int| moved <= j < shorter.len() implies key.rank() <= (#[trigger] shorter[j]).rank() by {
            if j < at {
                assert(shorter[j] == bounds[j]);
            } else {
                assert(shorter[j] == bounds[j + 1]);
                if r <= at && r <= j {
                    assert(key.rank() <= bounds[r].rank());
                    if r < j + 1 {
                        assert(bounds[r].rank() < bounds[j + 1].rank());
                    }
                }
            }
        }
    }
    lemma_route_unique(shorter, key, moved, route(shorter, key));
}

/// An internal node. An internal node that has lost its last child has retired: it holds
/// nothing and takes nothing, and it stays so.
pub struct InternalNode<K, V> {
    bounds: Vec<K>,
    children: Vec<Node<K, V>>,
    retired: bool,
}

/// [`Node`] is either [`Self::Internal`] or [`Self::Leaf`].
pub enum Node<K, V> {
    /// Internal node.
    Internal(InternalNode<K, V>),
    /// Leaf node.
    Leaf(LeafNode<K, V>),
}

impl<K: Key, V> View for Node<K, V> {
    type V = Map<K, V>;

    /// The entries below the node.
    open spec fn view(&self) -> Map<K, V> {
        Map::new(|k: K| self.contains(k), |k: K| self.value(k))
    }
}

impl<K: Key, V> Node<K, V> {
    /// The number of internal nodes on the way from the node to its last leaf.
    pub open spec fn height(&self) -> nat
        decreases self,
    {
        match self {
            Node::Leaf(_) => 0,
            Node::Internal(node) => if node.children().len() == 0 {
                0
            } else {
                1 + node.children()[node.children().len() - 1].height()
            },
        }
    }

    /// Whether `key` is below the node.
    pub open spec fn contains(&self, key: K) -> bool
        decreases self,
    {
        match self {
            Node::Leaf(node) => node@.contains_key(key),
            Node::Internal(node) => {
                let child = route(node.bounds(), key);
                0 <= child < node.children().len() && node.children()[child].contains(key)
            },
        }
    }

    /// The value of `key` below the node.
    pub open spec fn value(&self, key: K) -> V
        decreases self,
    {
        match self {
            Node::Leaf(node) => node@[key],
            Node::Internal(node) => {
                let child = route(node.bounds(), key);
                if 0 <= child < node.children().len() {
                    node.children()[child].value(key)
                } else {
                    arbitrary()
                }
            },
        }
    }

    /// Whether the node has retired: a leaf node that has lost its last entry, or an internal
    /// node that has lost its last child. A new node has not retired.
    pub open spec fn spec_retired(&self) -> bool {
        match self {
            Node::Leaf(node) => node.spec_retired(),
            Node::Internal(node) => node.spec_retired(),
        }
    }

    /// Whether the node holds an entry, as every child of an internal node does.
    pub open spec fn populated(&self) -> bool {
        match self {
            Node::Leaf(node) => node@.len() > 0,
            Node::Internal(node) => node.children().len() > 0,
        }
    }

    /// The invariant of a node. A leaf node is well-formed as a leaf node. An internal node has
    /// one bound less than children, the bounds ascend, every child is well-formed and holds an
    /// entry, and what a child holds is what the bounds route to it. An internal node that has
    /// retired has no children.
    pub open spec fn wf(&self) -> bool
        decreases self,
    {
        match self {
            Node::Leaf(node) => node.wf(),
            Node::Internal(node) => {
                &&& node.spec_retired() ==> node.children().len() == 0
                &&& node.children().len() <= DIMENSION + 1
                &&& node.children().len() == 0 ==> node.bounds().len() == 0
                &&& node.children().len() > 0 ==> node.bounds().len() + 1 == node.children().len()
                &&& ascending(node.bounds())
                &&& forall|i: int|
                    0 <= i < node.children().len() ==> (#[trigger] node.children()[i]).wf() && node.children()[i].populated()
                &&& forall|i: int, k: K|
                    0 <= i < node.children().len() && (#[trigger] node.children()[i].contains(k)) ==> route(
                        node.bounds(),
                        k,
                    ) == i
            },
        }
    }

    /// What the view says of a key is what `contains` and `value` say.
    pub proof fn lemma_view(&self, key: K)
        ensures
            self@.contains_key(key) == self.contains(key),
            self@.contains_key(key) ==> self@[key] == self.value(key),
    {
    }

    /// Creates a new internal node, without children.
    pub fn new_internal_node() -> (node: Self)
        ensures
            node.wf(),
            node is Internal,
            node@ == Map::<K, V>::empty(),
            !node.spec_retired(),
            !node.populated(),
            node.height() == 0,
    {
        let node = Node::Internal(InternalNode { bounds: Vec::new(), children: Vec::new(), retired: false });
        proof {
            assert(node@ =~= Map::<K, V>::empty());
        }
        node
    }

    /// Creates a new leaf node, without entries.
    pub fn new_leaf_node() -> (node: Self)
        ensures
            node.wf(),
            node is Leaf,
            node@ == Map::<K, V>::empty(),
            !node.spec_retired(),
            node.height() == 0,
    {
        let node = Node::Leaf(LeafNode::new());
        proof {
            assert(node@ =~= Map::<K, V>::empty());
        }
        node
    }

    /// Returns the depth of the node: `depth` for a leaf node, and one more for every internal
    /// node on the way to the last leaf.
    pub fn depth(&self, depth: usize) -> (total: usize)
        requires
            depth + self.height() <= usize::MAX,
        ensures
            total == depth + self.height(),
        decreases self,
    {
        match self {
            Node::Internal(node) => {
                if node.children.len() == 0 {
                    depth
                } else {
                    node.children[node.children.len() - 1].depth(depth + 1)
                }
            },
            Node::Leaf(_) => depth,
        }
    }

    /// Checks if the node has retired.
    pub fn retired(&self) -> (retired: bool)
        ensures
            retired == self.spec_retired(),
    {
        match self {
            Node::Internal(node) => node.retired,
            Node::Leaf(node) => node.retired(),
        }
    }

    /// Searches for an entry associated with the given key.
    pub fn search(&self, key: &K) -> (value: Option<&V>)
        requires
            self.wf(),
        ensures
            value is Some <==> self@.contains_key(*key),
            value is Some ==> *value.unwrap() == self@[*key],
        decreases self,
    {
        match self {
            Node::Internal(node) => {
                if node.children.len() == 0 {
                    return None;
                }
                let child: usize = node.route(key);
                node.children[child].search(key)
            },
            Node::Leaf(node) => node.search(key),
        }
    }
}

/// Whether `key` is in the child that the bounds route it to.
spec fn holds_in<K: Key, V>(bounds: Seq<K>, children: Seq<Node<K, V>>, key: K) -> bool {
    let child = route(bounds, key);
    0 <= child < children.len() && children[child].contains(key)
}

/// The value of `key` in the child that the bounds route it to.
spec fn value_in<K: Key, V>(bounds: Seq<K>, children: Seq<Node<K, V>>, key: K) -> V {
    let child = route(bounds, key);
    if 0 <= child < children.len() {
        children[child].value(key)
    } else {
        arbitrary()
    }
}

/// The invariant of an internal node, said of its bounds and its children.
spec fn wf_in<K: Key, V>(bounds: Seq<K>, children: Seq<Node<K, V>>) -> bool {
    &&& children.len() <= DIMENSION + 1
    &&& children.len() == 0 ==> bounds.len() == 0
    &&& children.len() > 0 ==> bounds.len() + 1 == children.len()
    &&& ascending(bounds)
    &&& forall|i: int| 0 <= i < children.len() ==> (#[trigger] children[i]).wf() && children[i].populated()
    &&& forall|i: int, k: K| 0 <= i < children.len() && (#[trigger] children[i].contains(k)) ==> route(bounds, k) == i
}

/// A child that has been split in two is replaced by its halves, with the bound between them:
/// the node stays well-formed and holds what it held.
proof fn lemma_child_split<K: Key, V>(
    bounds: Seq<K>,
    children: Seq<Node<K, V>>,
    at: int,
    lower: Node<K, V>,
    bound: K,
    upper: Node<K, V>,
)
    requires
        wf_in(bounds, children),
        0 <= at < children.len() <= DIMENSION,
        lower.wf(),
        upper.wf(),
        lower.populated(),
        upper.populated(),
        children[at].parts(&lower, bound, &upper),
    ensures
        wf_in(bounds.insert(at, bound), children.update(at, lower).insert(at + 1, upper)),
        forall|k: K|
            holds_in(bounds.insert(at, bound), children.update(at, lower).insert(at + 1, upper), k) == holds_in(
                bounds,
                children,
                k,
            ),
        forall|k: K|
            holds_in(bounds, children, k) ==> value_in(
                bounds.insert(at, bound),
                children.update(at, lower).insert(at + 1, upper),
                k,
            ) == value_in(bounds, children, k),
{
    let longer = bounds.insert(at, bound);
    let more = children.update(at, lower).insert(at + 1, upper);
    lower.lemma_populated();
    upper.lemma_populated();
    let low = choose|k: K| lower.contains(k);
    let high = choose|k: K| upper.contains(k);
    assert(children[at].contains(low) && children[at].contains(high));
    lemma_route(bounds, low);
    lemma_route(bounds, high);
    assert(route(bounds, low) == at && route(bounds, high) == at);
    assert forall|k: K| true implies ascending(longer) && route(longer, k) == if route(bounds, k) < at {
        route(bounds, k)
    } else if route(bounds, k) > at {
        route(bounds, k) + 1
    } else if k.rank() <= bound.rank() {
        at
    } else {
        at + 1
    } by {
        lemma_route_inserted(bounds, at, bound, k);
    }
    lemma_route_inserted(bounds, at, bound, low);
    assert forall|i: int| 0 <= i < more.len() implies (#[trigger] more[i]).wf() && more[i].populated() by {
        if i < at {
            assert(more[i] == children[i]);
        } else if i > at + 1 {
            assert(more[i] == children[i - 1]);
        }
    }
    assert forall|i: int, k: K| 0 <= i < more.len() && (#[trigger] more[i].contains(k)) implies route(longer, k) == i by {
        if i < at {
            assert(more[i] == children[i]);
            assert(children[i].contains(k));
        } else if i > at + 1 {
            assert(more[i] == children[i - 1]);
            assert(children[i - 1].contains(k));
        } else {
            assert(children[at].contains(k));
        }
    }
    assert forall|k: K| holds_in(longer, more, k) == holds_in(bounds, children, k) by {
        lemma_route(bounds, k);
        let r = route(bounds, k);
        if r < at {
            assert(more[r] == children[r]);
        } else if r > at {
            if r < children.len() {
                assert(more[r + 1] == children[r]);
            }
        }
    }
    assert forall|k: K| holds_in(bounds, children, k) implies value_in(longer, more, k) == value_in(bounds, children, k) by {
        lemma_route(bounds, k);
        let r = route(bounds, k);
        if r < at {
            assert(more[r] == children[r]);
        } else if r > at {
            assert(more[r + 1] == children[r]);
        }
    }
}

/// A child is replaced by a node of the same range: the node stays well-formed, and holds what
/// it held in the other children and what the new child holds.
proof fn lemma_child_replaced<K: Key, V>(bounds: Seq<K>, children: Seq<Node<K, V>>, at: int, child: Node<K, V>)
    requires
        wf_in(bounds, children),
        0 <= at < children.len(),
        child.wf(),
        child.populated(),
        forall|k: K| child.contains(k) ==> route(bounds, k) == at,
    ensures
        wf_in(bounds, children.update(at, child)),
        forall|k: K|
            holds_in(bounds, children.update(at, child), k) == if route(bounds, k) == at {
                child.contains(k)
            } else {
                holds_in(bounds, children, k)
            },
        forall|k: K|
            value_in(bounds, children.update(at, child), k) == if route(bounds, k) == at {
                child.value(k)
            } else {
                value_in(bounds, children, k)
            },
{
    let next = children.update(at, child);
    assert forall|i: int| 0 <= i < next.len() implies (#[trigger] next[i]).wf() && next[i].populated() by {
        if i != at {
            assert(next[i] == children[i]);
        }
    }
    assert forall|i: int, k: K| 0 <= i < next.len() && (#[trigger] next[i].contains(k)) implies route(bounds, k) == i by {
        if i != at {
            assert(next[i] == children[i]);
            assert(children[i].contains(k));
        }
    }
    assert forall|k: K| holds_in(bounds, next, k) == if route(bounds, k) == at {
        child.contains(k)
    } else {
        holds_in(bounds, children, k)
    } by {
        let r = route(bounds, k);
        if r != at && 0 <= r < children.len() {
            assert(next[r] == children[r]);
        }
    }
    assert forall|k: K| value_in(bounds, next, k) == if route(bounds, k) == at {
        child.value(k)
    } else {
        value_in(bounds, children, k)
    } by {
        let r = route(bounds, k);
        if r != at && 0 <= r < children.len() {
            assert(next[r] == children[r]);
        }
    }
}

/// The bound that goes when the child at `at` goes: the bound behind the child, or before it
/// for the last child.
pub open spec fn bound_of(bounds: int, at: int) -> int {
    if at < bounds {
        at
    } else {
        at - 1
    }
}

/// A child is taken out, with its bound: the node stays well-formed, and holds what it held in
/// the other children.
proof fn lemma_child_removed<K: Key, V>(bounds: Seq<K>, children: Seq<Node<K, V>>, at: int)
    requires
        bounds.len() + 1 == children.len(),
        children.len() <= DIMENSION + 1,
        ascending(bounds),
        0 <= at < children.len(),
        children.len() > 1,
        forall|i: int| 0 <= i < children.len() && i != at ==> (#[trigger] children[i]).wf() && children[i].populated(),
        forall|i: int, k: K|
            0 <= i < children.len() && i != at && (#[trigger] children[i].contains(k)) ==> route(bounds, k) == i,
    ensures
        wf_in(bounds.remove(bound_of(bounds.len() as int, at)), children.remove(at)),
        forall|k: K|
            holds_in(bounds.remove(bound_of(bounds.len() as int, at)), children.remove(at), k) == (holds_in(
                bounds,
                children,
                k,
            ) && route(bounds, k) != at),
        forall|k: K|
            holds_in(bounds, children, k) && route(bounds, k) != at ==> value_in(
                bounds.remove(bound_of(bounds.len() as int, at)),
                children.remove(at),
                k,
            ) == value_in(bounds, children, k),
{
    let gone = bound_of(bounds.len() as int, at);
    let shorter = bounds.remove(gone);
    let fewer = children.remove(at);
    assert forall|k: K| true implies ascending(shorter) && route(shorter, k) == if route(bounds, k) <= gone {
        route(bounds, k)
    } else {
        route(bounds, k) - 1
    } by {
        lemma_route_removed(bounds, gone, k);
    }
    assert(ascending(shorter)) by {
        let k: K = arbitrary();
        lemma_route_removed(bounds, gone, k);
    }
    assert forall|i: int| 0 <= i < fewer.len() implies (#[trigger] fewer[i]).wf() && fewer[i].populated() by {
        if i < at {
            assert(fewer[i] == children[i]);
        } else {
            assert(fewer[i] == children[i + 1]);
        }
    }
    assert forall|i: int, k: K| 0 <= i < fewer.len() && (#[trigger] fewer[i].contains(k)) implies route(shorter, k) == i by {
        if i < at {
            assert(fewer[i] == children[i]);
            assert(children[i].contains(k));
        } else {
            assert(fewer[i] == children[i + 1]);
            assert(children[i + 1].contains(k));
        }
    }
    assert forall|k: K| holds_in(shorter, fewer, k) == (holds_in(bounds, children, k) && route(bounds, k) != at) by {
        lemma_route(bounds, k);
        let r = route(bounds, k);
        if 0 <= r < children.len() && r != at {
            if r < at {
                assert(fewer[r] == children[r]);
            } else {
                assert(fewer[r - 1] == children[r]);
            }
        }
        if r == at {
            let moved = route(shorter, k);
            if 0 <= moved < fewer.len() && fewer[moved].contains(k) {
                assert(false);
            }
        }
    }
    assert forall|k: K| holds_in(bounds, children, k) && route(bounds, k) != at implies value_in(shorter, fewer, k)
        == value_in(bounds, children, k) by {
        lemma_route(bounds, k);
        let r = route(bounds, k);
        if r < at {
            assert(fewer[r] == children[r]);
        } else {
            assert(fewer[r - 1] == children[r]);
        }
    }
}

impl<K: Key, V> Node<K, V> {
    /// Whether `lower` and `upper` are the two parts of this node at `bound`: what the node holds
    /// is in the lower part if it is not larger than the bound, and in the upper part if it is.
    pub open spec fn parts(&self, lower: &Self, bound: K, upper: &Self) -> bool {
        &&& forall|k: K| self.contains(k) <==> lower.contains(k) || upper.contains(k)
        &&& forall|k: K| lower.contains(k) ==> k.rank() <= bound.rank() && lower.value(k) == self.value(k)
        &&& forall|k: K| upper.contains(k) ==> bound.rank() < k.rank() && upper.value(k) == self.value(k)
    }

    /// A node that is well-formed and holds an entry holds some key.
    pub proof fn lemma_populated(&self)
        requires
            self.wf(),
            self.populated(),
        ensures
            exists|k: K| self.contains(k),
        decreases self,
    {
        match self {
            Node::Leaf(node) => {
                node.lemma_size();
                crate::tree_index::leaf::lemma_entry(node.entries(), 0);
                assert(self.contains(node.entries()[0].0));
            },
            Node::Internal(node) => {
                let last = node.children@.len() - 1;
                node.children@[last].lemma_populated();
                let k = choose|k: K| node.children@[last].contains(k);
                assert(node.children@[last].contains(k));
                assert(self.contains(k));
            },
        }
    }

    /// A node that holds an entry has not retired.
    pub proof fn lemma_not_retired(&self)
        requires
            self.wf(),
            self.populated(),
        ensures
            !self.spec_retired(),
    {
        match self {
            Node::Leaf(node) => {
                node.lemma_size();
            },
            Node::Internal(_) => {},
        }
    }

    /// What an internal node holds is what its bounds and children hold.
    proof fn lemma_internal(&self)
        requires
            self is Internal,
        ensures
            self.wf() == (wf_in(self->Internal_0.bounds@, self->Internal_0.children@) && (
            self->Internal_0.retired ==> self->Internal_0.children@.len() == 0)),
            forall|k: K| self.contains(k) == holds_in(self->Internal_0.bounds@, self->Internal_0.children@, k),
            forall|k: K| self.value(k) == value_in(self->Internal_0.bounds@, self->Internal_0.children@, k),
    {
    }
}

impl<K: Key, V> Node<K, V> {
    /// Whether the leaf node that is in charge of `key` has no room left.
    pub open spec fn leaf_full(&self, key: K) -> bool
        decreases self,
    {
        match self {
            Node::Leaf(node) => node.is_full(),
            Node::Internal(node) => {
                let child = route(node.bounds(), key);
                0 <= child < node.children().len() && node.children()[child].leaf_full(key)
            },
        }
    }

    /// Whether no node on the way to the leaf node that is in charge of `key` has room left.
    pub open spec fn full_for(&self, key: K) -> bool
        decreases self,
    {
        match self {
            Node::Leaf(node) => node.is_full(),
            Node::Internal(node) => {
                let child = route(node.bounds(), key);
                &&& node.children().len() == DIMENSION + 1
                &&& 0 <= child < node.children().len()
                &&& node.children()[child].full_for(key)
            },
        }
    }

    /// Whether the node itself has no room left, so that it can be split.
    pub open spec fn splittable(&self) -> bool {
        match self {
            Node::Leaf(node) => node.is_full(),
            Node::Internal(node) => node.children().len() == DIMENSION + 1,
        }
    }

    /// What an insertion comes to. A node that has retired takes nothing. A key that is there is
    /// not inserted again. With room in the leaf node that is in charge of the key, the entry is
    /// added; an internal node without children makes a leaf node for it. With no room on the
    /// whole way to that leaf node, nothing is done. Else a node on the way is split, and the
    /// insertion is to be tried again.
    pub open spec fn verdict(&self, key: K, value: V) -> InsertResult<K, V> {
        if self.spec_retired() {
            InsertResult::Retired(key, value)
        } else if self.contains(key) {
            InsertResult::Duplicate(key, value)
        } else if !self.leaf_full(key) {
            InsertResult::Success
        } else if self.full_for(key) {
            InsertResult::Full(key, value)
        } else {
            InsertResult::Retry(key, value)
        }
    }

    /// What `insert` does: the outcome is the verdict, the entry is added on success, and else
    /// the node holds what it held.
    pub open spec fn inserts(
        &self,
        after: &Self,
        key: K,
        value: V,
        result: Result<InsertResult<K, V>, (K, V)>,
    ) -> bool {
        &&& after.wf()
        &&& result == Ok::<InsertResult<K, V>, (K, V)>(self.verdict(key, value))
        &&& after@ == if result == Ok::<InsertResult<K, V>, (K, V)>(InsertResult::Success) {
            self@.insert(key, value)
        } else {
            self@
        }
        &&& after.height() == if self is Internal && !self.populated() && !self.spec_retired() {
            1
        } else {
            self.height()
        }
        &&& (after is Leaf) == (self is Leaf)
        &&& after.spec_retired() == self.spec_retired()
        &&& self.populated() ==> after.populated()
        &&& result == Ok::<InsertResult<K, V>, (K, V)>(InsertResult::Full(key, value)) ==> after.splittable()
    }

    /// Moves the upper half of a node that has no room left into a new node, and returns the new
    /// node with the bound between the two.
    pub fn split(&mut self) -> (split: (K, Node<K, V>))
        requires
            old(self).wf(),
            old(self).splittable(),
        ensures
            final(self).wf(),
            split.1.wf(),
            final(self).populated(),
            split.1.populated(),
            (*final(self) is Leaf) == (*old(self) is Leaf),
            (split.1 is Leaf) == (*old(self) is Leaf),
            old(self).parts(final(self), split.0, &split.1),
            split.1.height() == old(self).height(),
    {
        match self {
            Node::Leaf(node) => {
                let ghost first = node.entries();
                proof {
                    node.lemma_size();
                }
                let (bound, upper) = node.split();
                let upper = Node::Leaf(upper);
                proof {
                    let low = node.entries();
                    let high = upper->Leaf_0.entries();
                    node.lemma_size();
                    upper->Leaf_0.lemma_size();
                    assert forall|k: K| old(self).contains(k) <==> self.contains(k) || upper.contains(k) by {
                        if crate::tree_index::leaf::holds(first, k) {
                            let i = choose|i: int| 0 <= i < first.len() && (#[trigger] first[i]).0 == k;
                            if i < 7 {
                                assert(low[i] == first[i]);
                            } else {
                                assert(high[i - 7] == first[i]);
                            }
                        }
                        if crate::tree_index::leaf::holds(low, k) {
                            let i = choose|i: int| 0 <= i < low.len() && (#[trigger] low[i]).0 == k;
                            assert(first[i] == low[i]);
                        }
                        if crate::tree_index::leaf::holds(high, k) {
                            let i = choose|i: int| 0 <= i < high.len() && (#[trigger] high[i]).0 == k;
                            assert(first[i + 7] == high[i]);
                        }
                    }
                    assert forall|k: K| self.contains(k) implies k.rank() <= bound.rank() && self.value(k) == old(
                        self,
                    ).value(k) by {
                        let i = choose|i: int| 0 <= i < low.len() && (#[trigger] low[i]).0 == k;
                        assert(first[i] == low[i]);
                        crate::tree_index::leaf::lemma_entry(low, i);
                        crate::tree_index::leaf::lemma_entry(first, i);
                        if i < 6 {
                            assert(first[i].0.rank() < first[6].0.rank());
                        }
                    }
                    assert forall|k: K| upper.contains(k) implies bound.rank() < k.rank() && upper.value(k) == old(
                        self,
                    ).value(k) by {
                        let i = choose|i: int| 0 <= i < high.len() && (#[trigger] high[i]).0 == k;
                        assert(first[i + 7] == high[i]);
                        crate::tree_index::leaf::lemma_entry(high, i);
                        crate::tree_index::leaf::lemma_entry(first, i + 7);
                        assert(first[6].0.rank() < first[i + 7].0.rank());
                    }
                }
                (bound, upper)
            },
            Node::Internal(node) => {
                let ghost bounds = node.bounds@;
                let ghost children = node.children@;
                let middle: usize = (DIMENSION + 1) / 2;
                let upper_children = node.children.split_off(middle + 1);
                let upper_bounds = node.bounds.split_off(middle + 1);
                let bound: K = match node.bounds.pop() {
                    Some(bound) => bound,
                    None => {
                        proof {
                            assert(false);
                        }
                        unreached()
                    },
                };
                let upper = Node::Internal(
                    InternalNode { bounds: upper_bounds, children: upper_children, retired: false },
                );
                proof {
                    assert(node.bounds@ =~= bounds.subrange(0, 7));
                    assert(node.children@ =~= children.subrange(0, 8));
                    assert(upper_bounds@ =~= bounds.subrange(8, 14));
                    assert(upper_children@ =~= children.subrange(8, 15));
                    lemma_halves(bounds, children, node.bounds@, node.children@, bound, upper_bounds@, upper_children@);
                    old(self).lemma_internal();
                    self.lemma_internal();
                    upper.lemma_internal();
                    assert(upper_children@[6] == children[14]);
                }
                (bound, upper)
            },
        }
    }

    /// Inserts a key-value pair.
    pub fn insert(&mut self, key: K, val: V) -> (result: Result<InsertResult<K, V>, (K, V)>)
        requires
            old(self).wf(),
        ensures
            old(self).inserts(final(self), key, val, result),
        decreases *old(self),
    {
        match self {
            Node::Leaf(node) => {
                let ghost before = *node;
                let result = node.insert(key, val);
                proof {
                    before.lemma_size();
                    node.lemma_size();
                    assert(self@ =~= if result == InsertResult::<K, V>::Success {
                        old(self)@.insert(key, val)
                    } else {
                        old(self)@
                    });
                }
                Ok(result)
            },
            Node::Internal(node) => {
                if node.retired {
                    return Ok(InsertResult::Retired(key, val));
                }
                if node.children.len() == 0 {
                    let mut leaf: LeafNode<K, V> = LeafNode::new();
                    let ghost empty = leaf;
                    let inserted = leaf.insert(key, val);
                    node.children.push(Node::Leaf(leaf));
                    proof {
                        empty.lemma_size();
                        leaf.lemma_size();
                        let bounds = node.bounds@;
                        let children = node.children@;
                        assert(children[0] == Node::Leaf(leaf));
                        assert forall|k: K| #[trigger] route(bounds, k) == 0 by {
                            lemma_route(bounds, k);
                        }
                        assert(wf_in(bounds, children));
                        old(self).lemma_internal();
                        self.lemma_internal();
                        assert(children[children.len() - 1].height() == 0);
                        assert(self.height() == 1);
                        assert(self@ =~= old(self)@.insert(key, val)) by {
                            assert forall|k: K| self@.contains_key(k) <==> old(self)@.insert(key, val).contains_key(k) by {
                                self.lemma_view(k);
                                old(self).lemma_view(k);
                            }
                            assert forall|k: K| self@.contains_key(k) implies self@[k] == old(self)@.insert(key, val)[k] by {
                                self.lemma_view(k);
                            }
                        }
                    }
                    return Ok(inserted);
                }
                let ghost bounds = node.bounds@;
                let ghost children = node.children@;
                let child: usize = node.route(&key);
                proof {
                    children[child as int].lemma_not_retired();
                }
                let result = node.children[child].insert(key, val);
                let ghost middle = node.children@;
                proof {
                    let next = middle[child as int];
                    assert(middle == children.update(child as int, next));
                    assert forall|k: K| next.contains(k) implies route(bounds, k) == child by {
                        children[child as int].lemma_view(k);
                        next.lemma_view(k);
                        if k != key {
                            assert(children[child as int].contains(k));
                        }
                    }
                    lemma_child_replaced(bounds, children, child as int, next);
                    assert forall|k: K|
                        holds_in(bounds, middle, k) == (holds_in(bounds, children, k) || (k == key && result == Ok::<
                            InsertResult<K, V>,
                            (K, V),
                        >(InsertResult::Success))) by {
                        children[child as int].lemma_view(k);
                        next.lemma_view(k);
                    }
                    assert forall|k: K| holds_in(bounds, middle, k) implies value_in(bounds, middle, k) == if k == key
                        && result == Ok::<InsertResult<K, V>, (K, V)>(InsertResult::Success) {
                        val
                    } else {
                        value_in(bounds, children, k)
                    } by {
                        children[child as int].lemma_view(k);
                        next.lemma_view(k);
                    }
                    let last = children.len() - 1;
                    if child as int != last {
                        assert(middle[last] == children[last]);
                    }
                }
                let outcome = match result {
                    Ok(InsertResult::Full(key, val)) => {
                        if node.children.len() == DIMENSION + 1 {
                            Ok(InsertResult::Full(key, val))
                        } else {
                            let (bound, upper) = node.children[child].split();
                            let ghost lower = node.children@[child as int];
                            node.install(child, bound, upper);
                            proof {
                                assert(node.children@ == middle.update(child as int, lower).insert(child + 1, upper));
                                lemma_child_split(bounds, middle, child as int, lower, bound, upper);
                                let last = middle.len() - 1;
                                if child as int == last {
                                    assert(node.children@[last + 1] == upper);
                                } else {
                                    assert(node.children@[last + 1] == middle[last]);
                                }
                            }
                            Ok(InsertResult::Retry(key, val))
                        }
                    },
                    other => other,
                };
                proof {
                    old(self).lemma_internal();
                    self.lemma_internal();
                    assert(self@ =~= if outcome == Ok::<InsertResult<K, V>, (K, V)>(InsertResult::Success) {
                        old(self)@.insert(key, val)
                    } else {
                        old(self)@
                    });
                }
                outcome
            },
        }
    }
}

impl<K: Key, V> Node<K, V> {
    /// What `remove_if` does. The entry of the key is removed if the key is there and the
    /// condition holds of its value; else the node holds what it held. A node that has lost its
    /// last entry has retired, and a node that has retired stays so.
    pub open spec fn removes<F: Fn(&V) -> bool>(
        &self,
        after: &Self,
        key: K,
        condition: F,
        result: Result<RemoveResult, bool>,
    ) -> bool {
        &&& after.wf()
        &&& (after is Leaf) == (self is Leaf)
        &&& result is Ok
        &&& result == Ok::<RemoveResult, bool>(RemoveResult::Fail) ==> {
            &&& after@ == self@
            &&& self@.contains_key(key) ==> call_ensures(condition, (&self@[key],), false)
            &&& after.populated() == self.populated()
        }
        &&& result != Ok::<RemoveResult, bool>(RemoveResult::Fail) ==> {
            &&& self@.contains_key(key)
            &&& call_ensures(condition, (&self@[key],), true)
            &&& after@ == self@.remove(key)
        }
        &&& result == Ok::<RemoveResult, bool>(RemoveResult::Success) ==> after.populated()
        &&& result != Ok::<RemoveResult, bool>(RemoveResult::Retired) ==> after.spec_retired() == self.spec_retired()
        &&& result == Ok::<RemoveResult, bool>(RemoveResult::Retired) ==> {
            &&& !after.populated()
            &&& after.spec_retired()
            &&& after@ == Map::<K, V>::empty()
        }
    }

    /// Removes an entry associated with the given key, if the condition holds of its value.
    pub fn remove_if<F: Fn(&V) -> bool>(&mut self, key: &K, condition: &F) -> (result: Result<RemoveResult, bool>)
        requires
            old(self).wf(),
            old(self)@.contains_key(*key) ==> call_requires(*condition, (&old(self)@[*key],)),
        ensures
            old(self).removes(final(self), *key, *condition, result),
        decreases *old(self),
    {
        match self {
            Node::Leaf(node) => {
                let ghost before = *node;
                let taken = node.take_if(key, condition);
                proof {
                    before.lemma_size();
                    node.lemma_size();
                }
                let result = match taken {
                    Some(_) => {
                        if node.retired() {
                            RemoveResult::Retired
                        } else {
                            RemoveResult::Success
                        }
                    },
                    None => RemoveResult::Fail,
                };
                proof {
                    assert(self@ =~= if result == RemoveResult::Fail {
                        old(self)@
                    } else {
                        old(self)@.remove(*key)
                    });
                    if result == RemoveResult::Retired {
                        assert(self@ =~= Map::<K, V>::empty());
                    }
                }
                Ok(result)
            },
            Node::Internal(node) => {
                if node.children.len() == 0 {
                    proof {
                        assert(old(self)@ =~= Map::<K, V>::empty());
                    }
                    return Ok(RemoveResult::Fail);
                }
                let ghost bounds = node.bounds@;
                let ghost children = node.children@;
                let child: usize = node.route(key);
                proof {
                    children[child as int].lemma_view(*key);
                    old(self).lemma_view(*key);
                }
                let result = node.children[child].remove_if(key, condition);
                let ghost middle = node.children@;
                let ghost next = middle[child as int];
                proof {
                    assert(middle == children.update(child as int, next));
                    assert forall|k: K| true implies (next.contains(k) <==> children[child as int].contains(k) && !(k
                        == *key && result != Ok::<RemoveResult, bool>(RemoveResult::Fail))) && (next.contains(k)
                        ==> next.value(k) == children[child as int].value(k)) by {
                        children[child as int].lemma_view(k);
                        next.lemma_view(k);
                    }
                }
                let outcome = match result {
                    Ok(RemoveResult::Retired) => {
                        proof {
                            assert forall|k: K| !next.contains(k) by {
                                next.lemma_view(k);
                            }
                            assert forall|i: int| 0 <= i < middle.len() && i != child implies (#[trigger] middle[i]).wf()
                                && middle[i].populated() by {
                                assert(middle[i] == children[i]);
                            }
                            assert forall|i: int, k: K|
                                0 <= i < middle.len() && i != child && (#[trigger] middle[i].contains(k)) implies route(
                                bounds,
                                k,
                            ) == i by {
                                assert(middle[i] == children[i]);
                                assert(children[i].contains(k));
                            }
                            if middle.len() > 1 {
                                lemma_child_removed(bounds, middle, child as int);
                            }
                        }
                        let _gone: Node<K, V> = node.children.remove(child);
                        if node.children.len() == 0 {
                            node.retired = true;
                            RemoveResult::Retired
                        } else {
                            let gone: usize = if child < node.bounds.len() {
                                child
                            } else {
                                child - 1
                            };
                            let _bound: K = node.bounds.remove(gone);
                            RemoveResult::Success
                        }
                    },
                    Ok(other) => {
                        proof {
                            if other == RemoveResult::Success {
                                assert forall|k: K| next.contains(k) implies route(bounds, k) == child by {
                                    assert(children[child as int].contains(k));
                                }
                                lemma_child_replaced(bounds, children, child as int, next);
                            } else {
                                assert forall|k: K| next.contains(k) implies route(bounds, k) == child by {
                                    assert(children[child as int].contains(k));
                                }
                                lemma_child_replaced(bounds, children, child as int, next);
                            }
                        }
                        other
                    },
                    Err(_) => RemoveResult::Fail,
                };
                proof {
                    old(self).lemma_internal();
                    self.lemma_internal();
                    let removed = outcome != RemoveResult::Fail;
                    let last_bounds = self->Internal_0.bounds@;
                    let last_children = self->Internal_0.children@;
                    assert forall|k: K| self.contains(k) == (old(self).contains(k) && !(k == *key && removed)) by {
                        lemma_route(bounds, k);
                        let r = route(bounds, k);
                        assert(self.contains(k) == holds_in(last_bounds, last_children, k));
                        assert(old(self).contains(k) == holds_in(bounds, children, k));
                        assert(next.contains(k) <==> children[child as int].contains(k) && !(k == *key && result
                            != Ok::<RemoveResult, bool>(RemoveResult::Fail)));
                        assert(holds_in(bounds, children, k) == (0 <= r < children.len() && children[r].contains(k)));
                        assert(holds_in(bounds, middle, k) == (0 <= r < middle.len() && middle[r].contains(k)));
                        if result == Ok::<RemoveResult, bool>(RemoveResult::Retired) {
                            assert(removed);
                            if r != child && 0 <= r < children.len() {
                                assert(middle[r] == children[r]);
                            }
                            if middle.len() == 1 {
                                assert(last_children.len() == 0);
                                assert(!holds_in(last_bounds, last_children, k));
                                assert(r == 0);
                            } else {
                                assert(last_children == middle.remove(child as int));
                                assert(last_bounds == bounds.remove(bound_of(bounds.len() as int, child as int)));
                                assert(holds_in(last_bounds, last_children, k) == (holds_in(bounds, middle, k) && r != child));
                            }
                        } else {
                            assert(last_children == middle);
                            assert(last_bounds == bounds);
                            assert(holds_in(bounds, middle, k) == if r == child {
                                next.contains(k)
                            } else {
                                holds_in(bounds, children, k)
                            });
                        }
                    }
                    assert forall|k: K| self.contains(k) implies self.value(k) == old(self).value(k) by {
                        lemma_route(bounds, k);
                        let r = route(bounds, k);
                        if result == Ok::<RemoveResult, bool>(RemoveResult::Retired) {
                            if r != child && 0 <= r < children.len() {
                                assert(middle[r] == children[r]);
                            }
                        }
                    }
                    assert forall|k: K| true implies old(self)@.contains_key(k) == old(self).contains(k) && self@.contains_key(
                        k,
                    ) == self.contains(k) && (old(self).contains(k) ==> old(self)@[k] == old(self).value(k)) && (
                    self.contains(k) ==> self@[k] == self.value(k)) by {
                        old(self).lemma_view(k);
                        self.lemma_view(k);
                    }
                    assert(self@ =~= if outcome == RemoveResult::Fail {
                        old(self)@
                    } else {
                        old(self)@.remove(*key)
                    });
                    if outcome == RemoveResult::Retired {
                        assert(self@ =~= Map::<K, V>::empty());
                    }
                }
                Ok(outcome)
            },
        }
    }

    /// Puts a new internal node in the place of the root, which has no room left, and makes the
    /// two halves of the root its children. The pair comes back, to be inserted again.
    pub fn split_root(key: K, val: V, root: &mut Node<K, V>) -> (pair: (K, V))
        requires
            old(root).wf(),
            old(root).splittable(),
        ensures
            pair == (key, val),
            final(root).wf(),
            *final(root) is Internal,
            final(root)@ == old(root)@,
            final(root).height() == old(root).height() + 1,
            !final(root).spec_retired(),
            !final(root).splittable(),
    {
        let mut lower: Node<K, V> = Node::new_internal_node();
        std::mem::swap(root, &mut lower);
        let ghost first = lower;
        let (bound, upper) = lower.split();
        let ghost low = lower;
        match root {
            Node::Internal(node) => {
                node.children.push(lower);
                proof {
                    let bounds = node.bounds@;
                    let children = node.children@;
                    assert(children[0] == low);
                    assert forall|k: K| #[trigger] route(bounds, k) == 0 by {
                        lemma_route(bounds, k);
                    }
                    assert(wf_in(bounds, children));
                    root.lemma_internal();
                }
            },
            Node::Leaf(_) => {},
        }
        let ghost single = *root;
        root.commit(0, bound, upper);
        proof {
            assert(root->Internal_0.children()[1] == upper);
            assert(root@ =~= first@) by {
                assert forall|k: K| true implies (first@.contains_key(k) == first.contains(k)) && (low@.contains_key(k)
                    == low.contains(k)) && (upper@.contains_key(k) == upper.contains(k)) && (single@.contains_key(k)
                    == single.contains(k)) && (single.contains(k) == low.contains(k)) && (low.contains(k) ==> low@[k]
                    == low.value(k) && single@[k] == low.value(k)) && (upper.contains(k) ==> upper@[k] == upper.value(
                    k,
                )) && (first.contains(k) ==> first@[k] == first.value(k)) by {
                    first.lemma_view(k);
                    low.lemma_view(k);
                    upper.lemma_view(k);
                    single.lemma_view(k);
                }
            }
        }
        (key, val)
    }
}

impl<K: Key + Send + 'static, V: Send + 'static> Node<K, V> {
    /// Removes the current root node if it has retired, and hands it to the guard for deferred
    /// destruction. Returns an error if there is no root, and else whether the root has been
    /// removed.
    pub fn remove_root(root: &mut Option<Node<K, V>>, guard: &Guard) -> (removed: Result<bool, ()>)
        ensures
            removed is Err <==> *old(root) is None,
            removed == Ok::<bool, ()>(true) <==> *old(root) is Some && old(root).unwrap().spec_retired(),
            removed == Ok::<bool, ()>(true) ==> *final(root) is None,
            removed != Ok::<bool, ()>(true) ==> *final(root) == *old(root),
    {
        let retired: bool = match root {
            Some(node) => node.retired(),
            None => {
                return Err(());
            },
        };
        if !retired {
            // The root node is still usable.
            return Ok(false);
        }
        match root.take() {
            Some(node) => retire(node, guard),
            None => {},
        }
        Ok(true)
    }
}

impl<K: Key, V> Node<K, V> {
    /// Whether `pair` is the entry of the smallest key below the node.
    pub open spec fn is_min(&self, pair: (K, V)) -> bool {
        &&& self@.contains_key(pair.0)
        &&& self@[pair.0] == pair.1
        &&& forall|k: K| self@.contains_key(k) ==> pair.0.rank() <= k.rank()
    }

    /// Whether `pair` is the entry of the largest key below the node.
    pub open spec fn is_max(&self, pair: (K, V)) -> bool {
        &&& self@.contains_key(pair.0)
        &&& self@[pair.0] == pair.1
        &&& forall|k: K| self@.contains_key(k) ==> k.rank() <= pair.0.rank()
    }

    /// Whether `pair` is the entry of the largest key below the node that is not larger than
    /// `key`.
    pub open spec fn is_max_le(&self, key: K, pair: (K, V)) -> bool {
        &&& self@.contains_key(pair.0)
        &&& self@[pair.0] == pair.1
        &&& pair.0.rank() <= key.rank()
        &&& forall|k: K| self@.contains_key(k) && k.rank() <= key.rank() ==> k.rank() <= pair.0.rank()
    }

    /// Returns the minimum key-value pair. A scan goes on from it with `next`.
    pub fn min(&self) -> (scanner: Option<Scanner<'_, K, V>>)
        requires
            self.wf(),
        ensures
            scanner is Some ==> self.is_min(scanner.unwrap().entry()),
            scanner is None ==> self@ == Map::<K, V>::empty(),
        decreases self,
    {
        match self {
            Node::Internal(node) => {
                if node.children.len() == 0 {
                    proof {
                        assert(self@ =~= Map::<K, V>::empty());
                    }
                    return None;
                }
                let scanner = node.children[0].min();
                proof {
                    let first = node.children@[0];
                    first.lemma_populated();
                    let some = choose|k: K| first.contains(k);
                    first.lemma_view(some);
                    assert(scanner is Some);
                    let pair = scanner.unwrap().entry();
                    first.lemma_view(pair.0);
                    self.lemma_view(pair.0);
                    assert(route(node.bounds@, pair.0) == 0);
                    lemma_route(node.bounds@, pair.0);
                    assert forall|k: K| self@.contains_key(k) implies pair.0.rank() <= k.rank() by {
                        self.lemma_view(k);
                        lemma_route(node.bounds@, k);
                        let r = route(node.bounds@, k);
                        if r == 0 {
                            first.lemma_view(k);
                        } else {
                            assert(node.bounds@[0].rank() < k.rank());
                            assert(pair.0.rank() <= node.bounds@[0].rank());
                        }
                    }
                }
                scanner
            },
            Node::Leaf(node) => {
                let scanner = node.min();
                proof {
                    let entries = node.entries();
                    if entries.len() > 0 {
                        crate::tree_index::leaf::lemma_entry(entries, 0);
                        self.lemma_view(entries[0].0);
                        assert forall|k: K| self@.contains_key(k) implies entries[0].0.rank() <= k.rank() by {
                            self.lemma_view(k);
                            let i = choose|i: int| 0 <= i < entries.len() && (#[trigger] entries[i]).0 == k;
                            if i > 0 {
                                assert(entries[0].0.rank() < entries[i].0.rank());
                            }
                        }
                    } else {
                        assert(self@ =~= Map::<K, V>::empty()) by {
                            assert forall|k: K| !self@.contains_key(k) by {
                                self.lemma_view(k);
                            }
                        }
                    }
                }
                scanner
            },
        }
    }

    /// Returns the maximum key-value pair.
    pub fn max(&self) -> (scanner: Option<Scanner<'_, K, V>>)
        requires
            self.wf(),
        ensures
            scanner is Some ==> self.is_max(scanner.unwrap().entry()),
            scanner is None ==> self@ == Map::<K, V>::empty(),
        decreases self,
    {
        match self {
            Node::Internal(node) => {
                if node.children.len() == 0 {
                    proof {
                        assert(self@ =~= Map::<K, V>::empty());
                    }
                    return None;
                }
                let at: usize = node.children.len() - 1;
                let scanner = node.children[at].max();
                proof {
                    let last = node.children@[at as int];
                    last.lemma_populated();
                    let some = choose|k: K| last.contains(k);
                    last.lemma_view(some);
                    assert(scanner is Some);
                    let pair = scanner.unwrap().entry();
                    last.lemma_view(pair.0);
                    self.lemma_view(pair.0);
                    assert(route(node.bounds@, pair.0) == at);
                    lemma_route(node.bounds@, pair.0);
                    assert forall|k: K| self@.contains_key(k) implies k.rank() <= pair.0.rank() by {
                        self.lemma_view(k);
                        lemma_route(node.bounds@, k);
                        let r = route(node.bounds@, k);
                        if r == at {
                            last.lemma_view(k);
                        } else {
                            assert(k.rank() <= node.bounds@[at - 1].rank());
                            assert(node.bounds@[at - 1].rank() < pair.0.rank());
                        }
                    }
                }
                scanner
            },
            Node::Leaf(node) => {
                let n: usize = node.len();
                if n == 0 {
                    proof {
                        assert(self@ =~= Map::<K, V>::empty()) by {
                            assert forall|k: K| !self@.contains_key(k) by {
                                self.lemma_view(k);
                            }
                        }
                    }
                    return None;
                }
                let scanner = node.at(n - 1);
                proof {
                    let entries = node.entries();
                    crate::tree_index::leaf::lemma_entry(entries, n - 1);
                    self.lemma_view(entries[n - 1].0);
                    assert forall|k: K| self@.contains_key(k) implies k.rank() <= entries[n - 1].0.rank() by {
                        self.lemma_view(k);
                        let i = choose|i: int| 0 <= i < entries.len() && (#[trigger] entries[i]).0 == k;
                        if i < n - 1 {
                            assert(entries[i].0.rank() < entries[n - 1].0.rank());
                        }
                    }
                }
                Some(scanner)
            },
        }
    }

    /// Returns a [`Scanner`] pointing to the entry with the maximum key among those keys smaller
    /// than or equal to the given key.
    pub fn max_le_appr(&self, key: &K) -> (scanner: Option<Scanner<'_, K, V>>)
        requires
            self.wf(),
        ensures
            scanner is Some ==> self.is_max_le(*key, scanner.unwrap().entry()),
            scanner is None ==> forall|k: K| self@.contains_key(k) ==> key.rank() < k.rank(),
        decreases self,
    {
        match self {
            Node::Internal(node) => {
                if node.children.len() == 0 {
                    proof {
                        assert(self@ =~= Map::<K, V>::empty());
                    }
                    return None;
                }
                let child: usize = node.route(key);
                let found = node.children[child].max_le_appr(key);
                let scanner = match found {
                    Some(scanner) => Some(scanner),
                    None => {
                        if child > 0 {
                            node.children[child - 1].max()
                        } else {
                            None
                        }
                    },
                };
                proof {
                    if found is Some {
                        self.lemma_max_le_found(*key, scanner.unwrap().entry());
                    } else if child > 0 {
                        let before = node.children@[child - 1];
                        before.lemma_populated();
                        let some = choose|k: K| before.contains(k);
                        before.lemma_view(some);
                        self.lemma_max_le_before(*key, scanner.unwrap().entry());
                    } else {
                        self.lemma_max_le_none(*key);
                    }
                }
                scanner
            },
            Node::Leaf(node) => {
                let scanner = node.max_le_appr(key);
                proof {
                    let entries = node.entries();
                    assert forall|k: K| true implies self@.contains_key(k) == crate::tree_index::leaf::holds(entries, k) by {
                        self.lemma_view(k);
                    }
                    if scanner is Some {
                        let pair = scanner.unwrap().entry();
                        let i = choose|i: int|
                            {
                                &&& 0 <= i < entries.len()
                                &&& pair == #[trigger] entries[i]
                                &&& entries[i].0.rank() <= key.rank()
                                &&& i + 1 < entries.len() ==> key.rank() < entries[i + 1].0.rank()
                            };
                        crate::tree_index::leaf::lemma_entry(entries, i);
                        self.lemma_view(pair.0);
                        assert forall|k: K| self@.contains_key(k) && k.rank() <= key.rank() implies k.rank() <= pair.0.rank() by {
                            let j = choose|j: int| 0 <= j < entries.len() && (#[trigger] entries[j]).0 == k;
                            if j > i {
                                if j > i + 1 {
                                    assert(entries[i + 1].0.rank() < entries[j].0.rank());
                                }
                            }
                        }
                    } else {
                        assert forall|k: K| self@.contains_key(k) implies key.rank() < k.rank() by {
                            let j = choose|j: int| 0 <= j < entries.len() && (#[trigger] entries[j]).0 == k;
                            if j > 0 {
                                assert(entries[0].0.rank() < entries[j].0.rank());
                            }
                        }
                    }
                }
                scanner
            },
        }
    }
}

impl<K: Key, V> Node<K, V> {
    /// Whether `pair` is the entry of the least key below the node that is larger than `key`:
    /// the entry that follows `key`, with no key of the node between the two.
    pub open spec fn is_next(&self, key: K, pair: (K, V)) -> bool {
        &&& self@.contains_key(pair.0)
        &&& self@[pair.0] == pair.1
        &&& key.rank() < pair.0.rank()
        &&& forall|k: K| self@.contains_key(k) && key.rank() < k.rank() ==> pair.0.rank() <= k.rank()
    }

    /// Returns a [`Scanner`] at the entry that follows `key`, or none if no key below the node is
    /// larger than `key`. A scan that starts at the minimum and goes on from each key to what
    /// follows it comes to every entry below the node, in the ascending order of the keys.
    pub fn next(&self, key: &K) -> (scanner: Option<Scanner<'_, K, V>>)
        requires
            self.wf(),
        ensures
            scanner is Some ==> self.is_next(*key, scanner.unwrap().entry()),
            scanner is None ==> forall|k: K| self@.contains_key(k) ==> k.rank() <= key.rank(),
        decreases self,
    {
        match self {
            Node::Internal(node) => {
                if node.children.len() == 0 {
                    proof {
                        assert(self@ =~= Map::<K, V>::empty());
                    }
                    return None;
                }
                let child: usize = node.route(key);
                let found = node.children[child].next(key);
                let scanner = match found {
                    Some(scanner) => Some(scanner),
                    None => {
                        if child + 1 < node.children.len() {
                            node.children[child + 1].min()
                        } else {
                            None
                        }
                    },
                };
                proof {
                    if found is Some {
                        self.lemma_next_found(*key, scanner.unwrap().entry());
                    } else if child + 1 < node.children@.len() {
                        let behind = node.children@[child + 1];
                        behind.lemma_populated();
                        let some = choose|k: K| behind.contains(k);
                        behind.lemma_view(some);
                        self.lemma_next_behind(*key, scanner.unwrap().entry());
                    } else {
                        self.lemma_next_none(*key);
                    }
                }
                scanner
            },
            Node::Leaf(node) => {
                let scanner = node.next(key);
                proof {
                    let entries = node.entries();
                    assert forall|k: K| true implies self@.contains_key(k) == crate::tree_index::leaf::holds(entries, k) by {
                        self.lemma_view(k);
                    }
                    if scanner is Some {
                        let pair = scanner.unwrap().entry();
                        let i = choose|i: int|
                            {
                                &&& 0 <= i < entries.len()
                                &&& pair == #[trigger] entries[i]
                                &&& key.rank() < entries[i].0.rank()
                                &&& i > 0 ==> entries[i - 1].0.rank() <= key.rank()
                            };
                        crate::tree_index::leaf::lemma_entry(entries, i);
                        self.lemma_view(pair.0);
                        assert forall|k: K| self@.contains_key(k) && key.rank() < k.rank() implies pair.0.rank() <= k.rank() by {
                            let j = choose|j: int| 0 <= j < entries.len() && (#[trigger] entries[j]).0 == k;
                            if j < i {
                                if j < i - 1 {
                                    assert(entries[j].0.rank() < entries[i - 1].0.rank());
                                }
                            }
                        }
                    } else {
                        assert forall|k: K| self@.contains_key(k) implies k.rank() <= key.rank() by {
                            let j = choose|j: int| 0 <= j < entries.len() && (#[trigger] entries[j]).0 == k;
                        }
                    }
                }
                scanner
            },
        }
    }

    /// What the child in charge of a key says of the key that follows it holds of the node.
    proof fn lemma_next_found(&self, key: K, pair: (K, V))
        requires
            self.wf(),
            self is Internal,
            self->Internal_0.children@.len() > 0,
            self->Internal_0.children@[route(self->Internal_0.bounds@, key)].is_next(key, pair),
        ensures
            self.is_next(key, pair),
    {
        let bounds = self->Internal_0.bounds@;
        let children = self->Internal_0.children@;
        let child = route(bounds, key);
        lemma_route(bounds, key);
        children[child].lemma_view(pair.0);
        self.lemma_view(pair.0);
        assert(children[child].contains(pair.0));
        assert(route(bounds, pair.0) == child);
        lemma_route(bounds, pair.0);
        assert forall|k: K| self@.contains_key(k) && key.rank() < k.rank() implies pair.0.rank() <= k.rank() by {
            self.lemma_view(k);
            lemma_route(bounds, k);
            let r = route(bounds, k);
            if r > child {
                assert(bounds[child].rank() < k.rank());
                assert(pair.0.rank() <= bounds[child].rank());
            } else if r < child {
                assert(k.rank() <= bounds[r].rank());
                if r < child - 1 {
                    assert(bounds[r].rank() < bounds[child - 1].rank());
                }
                assert(bounds[child - 1].rank() < key.rank());
            } else {
                children[child].lemma_view(k);
            }
        }
    }

    /// Where the child in charge of a key has no larger key, the least key of the child behind
    /// it is the key that follows.
    proof fn lemma_next_behind(&self, key: K, pair: (K, V))
        requires
            self.wf(),
            self is Internal,
            route(self->Internal_0.bounds@, key) + 1 < self->Internal_0.children@.len(),
            forall|k: K|
                self->Internal_0.children@[route(self->Internal_0.bounds@, key)]@.contains_key(k) ==> k.rank()
                    <= key.rank(),
            self->Internal_0.children@[route(self->Internal_0.bounds@, key) + 1].is_min(pair),
        ensures
            self.is_next(key, pair),
    {
        let bounds = self->Internal_0.bounds@;
        let children = self->Internal_0.children@;
        let child = route(bounds, key);
        let behind = children[child + 1];
        lemma_route(bounds, key);
        behind.lemma_view(pair.0);
        self.lemma_view(pair.0);
        assert(behind.contains(pair.0));
        assert(route(bounds, pair.0) == child + 1);
        lemma_route(bounds, pair.0);
        assert(bounds[child].rank() < pair.0.rank());
        assert(key.rank() <= bounds[child].rank());
        assert forall|k: K| self@.contains_key(k) && key.rank() < k.rank() implies pair.0.rank() <= k.rank() by {
            self.lemma_view(k);
            lemma_route(bounds, k);
            let r = route(bounds, k);
            if r == child {
                children[child].lemma_view(k);
            } else if r < child {
                assert(k.rank() <= bounds[r].rank());
                if r < child - 1 {
                    assert(bounds[r].rank() < bounds[child - 1].rank());
                }
                assert(bounds[child - 1].rank() < key.rank());
            } else if r > child + 1 {
                assert(bounds[child + 1].rank() < k.rank());
                assert(pair.0.rank() <= bounds[child + 1].rank());
            } else {
                behind.lemma_view(k);
            }
        }
    }

    /// Where the last child is in charge of a key and has no larger key, the node has none.
    proof fn lemma_next_none(&self, key: K)
        requires
            self.wf(),
            self is Internal,
            self->Internal_0.children@.len() > 0,
            route(self->Internal_0.bounds@, key) + 1 == self->Internal_0.children@.len(),
            forall|k: K|
                self->Internal_0.children@[route(self->Internal_0.bounds@, key)]@.contains_key(k) ==> k.rank()
                    <= key.rank(),
        ensures
            forall|k: K| self@.contains_key(k) ==> k.rank() <= key.rank(),
    {
        let bounds = self->Internal_0.bounds@;
        let children = self->Internal_0.children@;
        let child = route(bounds, key);
        lemma_route(bounds, key);
        assert forall|k: K| self@.contains_key(k) implies k.rank() <= key.rank() by {
            self.lemma_view(k);
            lemma_route(bounds, k);
            let r = route(bounds, k);
            if r == child {
                children[child].lemma_view(k);
            } else {
                assert(k.rank() <= bounds[r].rank());
                if r < child - 1 {
                    assert(bounds[r].rank() < bounds[child - 1].rank());
                }
                assert(bounds[child - 1].rank() < key.rank());
            }
        }
    }

    /// What the child in charge of a key says of the largest key up to it holds of the node.
    proof fn lemma_max_le_found(&self, key: K, pair: (K, V))
        requires
            self.wf(),
            self is Internal,
            self->Internal_0.children@.len() > 0,
            self->Internal_0.children@[route(self->Internal_0.bounds@, key)].is_max_le(key, pair),
        ensures
            self.is_max_le(key, pair),
    {
        let bounds = self->Internal_0.bounds@;
        let children = self->Internal_0.children@;
        let child = route(bounds, key);
        lemma_route(bounds, key);
        children[child].lemma_view(pair.0);
        self.lemma_view(pair.0);
        assert(children[child].contains(pair.0));
        assert(route(bounds, pair.0) == child);
        lemma_route(bounds, pair.0);
        assert forall|k: K| self@.contains_key(k) && k.rank() <= key.rank() implies k.rank() <= pair.0.rank() by {
            self.lemma_view(k);
            lemma_route(bounds, k);
            let r = route(bounds, k);
            if r < child {
                assert(k.rank() <= bounds[r].rank());
                if r < child - 1 {
                    assert(bounds[r].rank() < bounds[child - 1].rank());
                }
                assert(bounds[child - 1].rank() < pair.0.rank());
            } else if r > child {
                assert(bounds[child].rank() < k.rank());
                assert(key.rank() <= bounds[child].rank());
            } else {
                children[child].lemma_view(k);
            }
        }
    }

    /// Where the child in charge of a key has no key up to it, the largest key of the child
    /// before is the largest key up to it.
    proof fn lemma_max_le_before(&self, key: K, pair: (K, V))
        requires
            self.wf(),
            self is Internal,
            self->Internal_0.children@.len() > 0,
            route(self->Internal_0.bounds@, key) > 0,
            forall|k: K|
                self->Internal_0.children@[route(self->Internal_0.bounds@, key)]@.contains_key(k) ==> key.rank()
                    < k.rank(),
            self->Internal_0.children@[route(self->Internal_0.bounds@, key) - 1].is_max(pair),
        ensures
            self.is_max_le(key, pair),
    {
        let bounds = self->Internal_0.bounds@;
        let children = self->Internal_0.children@;
        let child = route(bounds, key);
        let before = children[child - 1];
        lemma_route(bounds, key);
        before.lemma_view(pair.0);
        self.lemma_view(pair.0);
        assert(before.contains(pair.0));
        assert(route(bounds, pair.0) == child - 1);
        lemma_route(bounds, pair.0);
        assert(pair.0.rank() <= bounds[child - 1].rank());
        assert forall|k: K| self@.contains_key(k) && k.rank() <= key.rank() implies k.rank() <= pair.0.rank() by {
            self.lemma_view(k);
            lemma_route(bounds, k);
            let r = route(bounds, k);
            if r == child {
                children[child].lemma_view(k);
            } else if r > child {
                assert(bounds[child].rank() < k.rank());
                assert(key.rank() <= bounds[child].rank());
            } else if r < child - 1 {
                assert(k.rank() <= bounds[r].rank());
                if r < child - 2 {
                    assert(bounds[r].rank() < bounds[child - 2].rank());
                }
                assert(bounds[child - 2].rank() < pair.0.rank());
            } else {
                before.lemma_view(k);
            }
        }
    }

    /// Where the first child is in charge of a key and has no key up to it, the node has none.
    proof fn lemma_max_le_none(&self, key: K)
        requires
            self.wf(),
            self is Internal,
            self->Internal_0.children@.len() > 0,
            route(self->Internal_0.bounds@, key) == 0,
            forall|k: K| self->Internal_0.children@[0]@.contains_key(k) ==> key.rank() < k.rank(),
        ensures
            forall|k: K| self@.contains_key(k) ==> key.rank() < k.rank(),
    {
        let bounds = self->Internal_0.bounds@;
        let children = self->Internal_0.children@;
        lemma_route(bounds, key);
        assert forall|k: K| self@.contains_key(k) implies key.rank() < k.rank() by {
            self.lemma_view(k);
            lemma_route(bounds, k);
            let r = route(bounds, k);
            if r == 0 {
                children[0].lemma_view(k);
            } else {
                assert(bounds[0].rank() < k.rank());
                assert(key.rank() <= bounds[0].rank());
            }
        }
    }
}

/// The upper half of a split is put behind the child that it was split from, with the bound
/// between the two: the node stays well-formed, and holds what it held and what the upper half
/// holds.
proof fn lemma_committed<K: Key, V>(bounds: Seq<K>, children: Seq<Node<K, V>>, at: int, bound: K, upper: Node<K, V>)
    requires
        wf_in(bounds, children),
        0 <= at < children.len() <= DIMENSION,
        upper.wf(),
        upper.populated(),
        forall|k: K| children[at].contains(k) ==> k.rank() <= bound.rank(),
        forall|k: K| upper.contains(k) ==> bound.rank() < k.rank() && route(bounds, k) == at,
    ensures
        wf_in(bounds.insert(at, bound), children.insert(at + 1, upper)),
        forall|k: K|
            holds_in(bounds.insert(at, bound), children.insert(at + 1, upper), k) == (holds_in(bounds, children, k)
                || upper.contains(k)),
        forall|k: K|
            holds_in(bounds, children, k) ==> value_in(bounds.insert(at, bound), children.insert(at + 1, upper), k)
                == value_in(bounds, children, k),
        forall|k: K|
            upper.contains(k) ==> value_in(bounds.insert(at, bound), children.insert(at + 1, upper), k)
                == upper.value(k),
{
    let longer = bounds.insert(at, bound);
    let more = children.insert(at + 1, upper);
    let lower = children[at];
    lower.lemma_populated();
    upper.lemma_populated();
    let low = choose|k: K| lower.contains(k);
    let high = choose|k: K| upper.contains(k);
    lemma_route(bounds, low);
    lemma_route(bounds, high);
    assert(route(bounds, low) == at && route(bounds, high) == at);
    assert forall|k: K| true implies ascending(longer) && route(longer, k) == if route(bounds, k) < at {
        route(bounds, k)
    } else if route(bounds, k) > at {
        route(bounds, k) + 1
    } else if k.rank() <= bound.rank() {
        at
    } else {
        at + 1
    } by {
        lemma_route_inserted(bounds, at, bound, k);
    }
    lemma_route_inserted(bounds, at, bound, low);
    assert forall|i: int| 0 <= i < more.len() implies (#[trigger] more[i]).wf() && more[i].populated() by {
        if i <= at {
            assert(more[i] == children[i]);
        } else if i > at + 1 {
            assert(more[i] == children[i - 1]);
        }
    }
    assert forall|i: int, k: K| 0 <= i < more.len() && (#[trigger] more[i].contains(k)) implies route(longer, k) == i by {
        if i <= at {
            assert(more[i] == children[i]);
            assert(children[i].contains(k));
        } else if i > at + 1 {
            assert(more[i] == children[i - 1]);
            assert(children[i - 1].contains(k));
        }
    }
    assert forall|k: K| holds_in(longer, more, k) == (holds_in(bounds, children, k) || upper.contains(k)) by {
        lemma_route(bounds, k);
        let r = route(bounds, k);
        if r < at {
            assert(more[r] == children[r]);
        } else if r > at {
            if r < children.len() {
                assert(more[r + 1] == children[r]);
            }
        } else {
            assert(more[at] == children[at]);
            assert(more[at + 1] == upper);
        }
    }
    assert forall|k: K| holds_in(bounds, children, k) implies value_in(longer, more, k) == value_in(bounds, children, k) by {
        lemma_route(bounds, k);
        let r = route(bounds, k);
        if r < at {
            assert(more[r] == children[r]);
        } else if r > at {
            assert(more[r + 1] == children[r]);
        } else {
            assert(more[at] == children[at]);
        }
    }
    assert forall|k: K| upper.contains(k) implies value_in(longer, more, k) == upper.value(k) by {
        assert(more[at + 1] == upper);
    }
}

/// The children of an upper half are put back behind the children of the lower half, with the
/// bound between the two halves: the node is well-formed, and holds what the two halves hold.
proof fn lemma_merged<K: Key, V>(
    lower_bounds: Seq<K>,
    lower_children: Seq<Node<K, V>>,
    bound: K,
    upper_bounds: Seq<K>,
    upper_children: Seq<Node<K, V>>,
)
    requires
        wf_in(lower_bounds, lower_children),
        wf_in(upper_bounds, upper_children),
        lower_children.len() > 0,
        upper_children.len() > 0,
        lower_children.len() + upper_children.len() <= DIMENSION + 1,
        forall|k: K| holds_in(lower_bounds, lower_children, k) ==> k.rank() <= bound.rank(),
        forall|k: K| holds_in(upper_bounds, upper_children, k) ==> bound.rank() < k.rank(),
    ensures
        wf_in(lower_bounds.push(bound).add(upper_bounds), lower_children.add(upper_children)),
        forall|k: K|
            holds_in(lower_bounds.push(bound).add(upper_bounds), lower_children.add(upper_children), k) == (holds_in(
                lower_bounds,
                lower_children,
                k,
            ) || holds_in(upper_bounds, upper_children, k)),
        forall|k: K|
            holds_in(lower_bounds, lower_children, k) ==> value_in(
                lower_bounds.push(bound).add(upper_bounds),
                lower_children.add(upper_children),
                k,
            ) == value_in(lower_bounds, lower_children, k),
        forall|k: K|
            holds_in(upper_bounds, upper_children, k) ==> value_in(
                lower_bounds.push(bound).add(upper_bounds),
                lower_children.add(upper_children),
                k,
            ) == value_in(upper_bounds, upper_children, k),
{
    let bounds = lower_bounds.push(bound).add(upper_bounds);
    let children = lower_children.add(upper_children);
    let n = lower_bounds.len() as int;
    let last = lower_children[n];
    let first = upper_children[0];
    last.lemma_populated();
    first.lemma_populated();
    let low = choose|k: K| last.contains(k);
    let high = choose|k: K| first.contains(k);
    lemma_route(lower_bounds, low);
    lemma_route(upper_bounds, high);
    assert(route(lower_bounds, low) == n);
    assert(route(upper_bounds, high) == 0);
    assert(holds_in(lower_bounds, lower_children, low));
    assert(holds_in(upper_bounds, upper_children, high));
    assert forall|j: int| 0 <= j < n implies (#[trigger] lower_bounds[j]).rank() < bound.rank() by {
        assert(lower_bounds[j].rank() < low.rank());
    }
    assert forall|j: int| 0 <= j < upper_bounds.len() implies bound.rank() < (#[trigger] upper_bounds[j]).rank() by {
        assert(high.rank() <= upper_bounds[0].rank());
        if j > 0 {
            assert(upper_bounds[0].rank() < upper_bounds[j].rank());
        }
    }
    assert forall|i: int, j: int| 0 <= i < j < bounds.len() implies (#[trigger] bounds[i]).rank() < (
    #[trigger] bounds[j]).rank() by {
        if j < n {
            assert(bounds[i] == lower_bounds[i] && bounds[j] == lower_bounds[j]);
        } else if j == n {
            assert(bounds[i] == lower_bounds[i] && bounds[j] == bound);
        } else if i < n {
            assert(bounds[i] == lower_bounds[i] && bounds[j] == upper_bounds[j - n - 1]);
        } else if i == n {
            assert(bounds[i] == bound && bounds[j] == upper_bounds[j - n - 1]);
        } else {
            assert(bounds[i] == upper_bounds[i - n - 1] && bounds[j] == upper_bounds[j - n - 1]);
        }
    }
    assert forall|k: K| true implies #[trigger] route(bounds, k) == if k.rank() <= bound.rank() {
        route(lower_bounds, k)
    } else {
        n + 1 + route(upper_bounds, k)
    } by {
        lemma_route(lower_bounds, k);
        lemma_route(upper_bounds, k);
        lemma_route(bounds, k);
        let moved = if k.rank() <= bound.rank() {
            route(lower_bounds, k)
        } else {
            n + 1 + route(upper_bounds, k)
        };
        assert(is_route(bounds, k, moved)) by {
            assert forall|j: int| 0 <= j < moved implies (#[trigger] bounds[j]).rank() < k.rank() by {
                if j < n {
                    assert(bounds[j] == lower_bounds[j]);
                } else if j == n {
                    assert(bounds[j] == bound);
                } else {
                    assert(bounds[j] == upper_bounds[j - n - 1]);
                }
            }
            assert forall|j: int| moved <= j < bounds.len() implies k.rank() <= (#[trigger] bounds[j]).rank() by {
                if j < n {
                    assert(bounds[j] == lower_bounds[j]);
                } else if j == n {
                    assert(bounds[j] == bound);
                } else {
                    assert(bounds[j] == upper_bounds[j - n - 1]);
                }
            }
        }
        lemma_route_unique(bounds, k, moved, route(bounds, k));
    }
    assert forall|i: int| 0 <= i < children.len() implies (#[trigger] children[i]).wf() && children[i].populated() by {
        if i <= n {
            assert(children[i] == lower_children[i]);
        } else {
            assert(children[i] == upper_children[i - n - 1]);
        }
    }
    assert forall|i: int, k: K| 0 <= i < children.len() && (#[trigger] children[i].contains(k)) implies route(bounds, k)
        == i by {
        if i <= n {
            assert(children[i] == lower_children[i]);
            assert(lower_children[i].contains(k));
            assert(holds_in(lower_bounds, lower_children, k));
        } else {
            assert(children[i] == upper_children[i - n - 1]);
            assert(upper_children[i - n - 1].contains(k));
            assert(holds_in(upper_bounds, upper_children, k));
        }
    }
    assert forall|k: K|
        holds_in(bounds, children, k) == (holds_in(lower_bounds, lower_children, k) || holds_in(
            upper_bounds,
            upper_children,
            k,
        )) by {
        lemma_route(lower_bounds, k);
        lemma_route(upper_bounds, k);
        if k.rank() <= bound.rank() {
            assert(children[route(lower_bounds, k)] == lower_children[route(lower_bounds, k)]);
        } else {
            let r = route(upper_bounds, k);
            if r < upper_children.len() {
                assert(children[n + 1 + r] == upper_children[r]);
            }
        }
    }
    assert forall|k: K| holds_in(lower_bounds, lower_children, k) implies value_in(bounds, children, k) == value_in(
        lower_bounds,
        lower_children,
        k,
    ) by {
        assert(children[route(lower_bounds, k)] == lower_children[route(lower_bounds, k)]);
    }
    assert forall|k: K| holds_in(upper_bounds, upper_children, k) implies value_in(bounds, children, k) == value_in(
        upper_bounds,
        upper_children,
        k,
    ) by {
        let r = route(upper_bounds, k);
        assert(children[n + 1 + r] == upper_children[r]);
    }
}

impl<K: Key, V> Node<K, V> {
    /// Whether `upper` is the upper half of a split of the child at `at`, with `bound` between
    /// the child and it, that waits to be committed: the keys of the child are not larger than
    /// the bound, and the keys of the upper half are, and belong where the child is.
    pub open spec fn staged(&self, at: int, bound: K, upper: &Self) -> bool {
        match self {
            Node::Leaf(_) => false,
            Node::Internal(node) => {
                &&& 0 <= at < node.children().len() <= DIMENSION
                &&& upper.wf()
                &&& upper.populated()
                &&& forall|k: K| node.children()[at].contains(k) ==> k.rank() <= bound.rank()
                &&& forall|k: K| upper.contains(k) ==> bound.rank() < k.rank() && route(node.bounds(), k) == at
            },
        }
    }

    /// Whether `upper` can be taken back into this node, the lower half of a split at `bound`:
    /// the two are of a kind and hold entries, the keys of this node are not larger than the
    /// bound, the keys of `upper` are, and the two together are no more than a node holds.
    pub open spec fn mergeable(&self, bound: K, upper: &Self) -> bool {
        &&& self.wf()
        &&& upper.wf()
        &&& self.populated()
        &&& upper.populated()
        &&& forall|k: K| self.contains(k) ==> k.rank() <= bound.rank()
        &&& forall|k: K| upper.contains(k) ==> bound.rank() < k.rank()
        &&& match (self, upper) {
            (Node::Leaf(lower), Node::Leaf(higher)) => lower@.len() + higher@.len() <= DIMENSION,
            (Node::Internal(lower), Node::Internal(higher)) => lower.children().len() + higher.children().len()
                <= DIMENSION + 1,
            _ => false,
        }
    }

    /// Commits a split: puts the upper half of the child at `at` behind that child, with the
    /// bound between the two.
    pub fn commit(&mut self, at: usize, bound: K, upper: Node<K, V>)
        requires
            old(self).wf(),
            old(self).staged(at as int, bound, &upper),
        ensures
            final(self).wf(),
            *final(self) is Internal,
            final(self)@ == old(self)@.union_prefer_right(upper@),
            final(self).spec_retired() == old(self).spec_retired(),
            final(self).populated(),
            final(self)->Internal_0.children() == old(self)->Internal_0.children().insert(at + 1, upper),
            final(self)->Internal_0.bounds() == old(self)->Internal_0.bounds().insert(at as int, bound),
    {
        match self {
            Node::Internal(node) => {
                proof {
                    old(self).lemma_internal();
                    lemma_committed(node.bounds@, node.children@, at as int, bound, upper);
                }
                node.install(at, bound, upper);
                proof {
                    self.lemma_internal();
                    let merged = old(self)@.union_prefer_right(upper@);
                    assert forall|k: K| self@.contains_key(k) == merged.contains_key(k) by {
                        self.lemma_view(k);
                        old(self).lemma_view(k);
                        upper.lemma_view(k);
                    }
                    assert forall|k: K| self@.contains_key(k) implies self@[k] == merged[k] by {
                        self.lemma_view(k);
                        old(self).lemma_view(k);
                        upper.lemma_view(k);
                    }
                    assert(self@ =~= merged);
                }
            },
            Node::Leaf(_) => {},
        }
    }

    /// Rolls a split back: takes the upper half back into this node, the lower half.
    pub fn rollback(&mut self, bound: K, upper: Node<K, V>)
        requires
            old(self).mergeable(bound, &upper),
        ensures
            final(self).wf(),
            final(self)@ == old(self)@.union_prefer_right(upper@),
            (*final(self) is Leaf) == (*old(self) is Leaf),
            final(self).populated(),
            !final(self).spec_retired(),
            final(self).height() == upper.height(),
    {
        proof {
            old(self).lemma_not_retired();
            assert forall|k: K| true implies old(self)@.contains_key(k) == old(self).contains(k) && upper@.contains_key(
                k,
            ) == upper.contains(k) by {
                old(self).lemma_view(k);
                upper.lemma_view(k);
            }
        }
        match self {
            Node::Leaf(node) => {
                match upper {
                    Node::Leaf(higher) => {
                        proof {
                            node.lemma_size();
                            higher.lemma_size();
                            let low = node.entries();
                            let high = higher.entries();
                            assert forall|i: int, j: int| 0 <= i < low.len() && 0 <= j < high.len() implies (
                            #[trigger] low[i]).0.rank() < (#[trigger] high[j]).0.rank() by {
                                crate::tree_index::leaf::lemma_entry(low, i);
                                crate::tree_index::leaf::lemma_entry(high, j);
                                assert(old(self).contains(low[i].0));
                                assert(upper.contains(high[j].0));
                            }
                        }
                        node.rollback(higher);
                        proof {
                            node.lemma_size();
                            assert(self@ =~= old(self)@.union_prefer_right(upper@));
                        }
                    },
                    Node::Internal(_) => {},
                }
            },
            Node::Internal(node) => {
                match upper {
                    Node::Internal(higher) => {
                        let ghost lower_bounds = node.bounds@;
                        let ghost lower_children = node.children@;
                        proof {
                            old(self).lemma_internal();
                            upper.lemma_internal();
                            assert forall|k: K| holds_in(lower_bounds, lower_children, k) implies k.rank() <= bound.rank() by {
                                assert(old(self).contains(k));
                            }
                            assert forall|k: K| holds_in(higher.bounds@, higher.children@, k) implies bound.rank()
                                < k.rank() by {
                                assert(upper.contains(k));
                            }
                            lemma_merged(lower_bounds, lower_children, bound, higher.bounds@, higher.children@);
                        }
                        let mut higher = higher;
                        node.bounds.push(bound);
                        node.bounds.append(&mut higher.bounds);
                        node.children.append(&mut higher.children);
                        proof {
                            self.lemma_internal();
                            let n = self->Internal_0.children@.len();
                            assert(self->Internal_0.children@[n - 1] == upper->Internal_0.children@[upper->Internal_0.children@.len()
                                - 1]);
                            let merged = old(self)@.union_prefer_right(upper@);
                            assert forall|k: K| self@.contains_key(k) == merged.contains_key(k) by {
                                self.lemma_view(k);
                                old(self).lemma_view(k);
                                upper.lemma_view(k);
                            }
                            assert forall|k: K| self@.contains_key(k) implies self@[k] == merged[k] by {
                                self.lemma_view(k);
                                old(self).lemma_view(k);
                                upper.lemma_view(k);
                            }
                            assert(self@ =~= merged);
                        }
                    },
                    Node::Leaf(_) => {},
                }
            },
        }
    }
}

/// The halves of an internal node that has no room left are well-formed, hold an entry each, and
/// are the parts of the node at the bound between them.
proof fn lemma_halves<K: Key, V>(
    bounds: Seq<K>,
    children: Seq<Node<K, V>>,
    lower_bounds: Seq<K>,
    lower_children: Seq<Node<K, V>>,
    bound: K,
    upper_bounds: Seq<K>,
    upper_children: Seq<Node<K, V>>,
)
    requires
        wf_in(bounds, children),
        children.len() == DIMENSION + 1,
        lower_children == children.subrange(0, 8),
        upper_children == children.subrange(8, 15),
        lower_bounds == bounds.subrange(0, 7),
        bound == bounds[7],
        upper_bounds == bounds.subrange(8, 14),
    ensures
        wf_in(lower_bounds, lower_children),
        wf_in(upper_bounds, upper_children),
        forall|k: K|
            holds_in(bounds, children, k) <==> holds_in(lower_bounds, lower_children, k) || holds_in(
                upper_bounds,
                upper_children,
                k,
            ),
        forall|k: K|
            holds_in(lower_bounds, lower_children, k) ==> k.rank() <= bound.rank() && value_in(
                lower_bounds,
                lower_children,
                k,
            ) == value_in(bounds, children, k),
        forall|k: K|
            holds_in(upper_bounds, upper_children, k) ==> bound.rank() < k.rank() && value_in(
                upper_bounds,
                upper_children,
                k,
            ) == value_in(bounds, children, k),
{
    assert forall|i: int, j: int| 0 <= i < j < lower_bounds.len() implies (#[trigger] lower_bounds[i]).rank() < (
    #[trigger] lower_bounds[j]).rank() by {
        assert(lower_bounds[i] == bounds[i] && lower_bounds[j] == bounds[j]);
    }
    assert forall|i: int, j: int| 0 <= i < j < upper_bounds.len() implies (#[trigger] upper_bounds[i]).rank() < (
    #[trigger] upper_bounds[j]).rank() by {
        assert(upper_bounds[i] == bounds[i + 8] && upper_bounds[j] == bounds[j + 8]);
    }
    assert forall|k: K| true implies {
        &&& route(bounds, k) <= 7 ==> route(lower_bounds, k) == route(bounds, k) && k.rank() <= bound.rank()
        &&& route(bounds, k) > 7 ==> route(upper_bounds, k) == route(bounds, k) - 8 && bound.rank() < k.rank()
        &&& route(bounds, k) > 7 ==> route(lower_bounds, k) == 7
        &&& route(bounds, k) <= 7 ==> route(upper_bounds, k) == 0
    } by {
        lemma_route(bounds, k);
        lemma_route(lower_bounds, k);
        lemma_route(upper_bounds, k);
        let r = route(bounds, k);
        if r <= 7 {
            assert(is_route(lower_bounds, k, r)) by {
                assert forall|j: int| 0 <= j < r implies (#[trigger] lower_bounds[j]).rank() < k.rank() by {
                    assert(lower_bounds[j] == bounds[j]);
                }
                assert forall|j: int| r <= j < lower_bounds.len() implies k.rank() <= (#[trigger] lower_bounds[j]).rank() by {
                    assert(lower_bounds[j] == bounds[j]);
                }
            }
            lemma_route_unique(lower_bounds, k, r, route(lower_bounds, k));
            assert(k.rank() <= bounds[7].rank());
            assert(is_route(upper_bounds, k, 0)) by {
                assert forall|j: int| 0 <= j < upper_bounds.len() implies k.rank() <= (#[trigger] upper_bounds[j]).rank() by {
                    assert(upper_bounds[j] == bounds[j + 8]);
                    assert(bounds[7].rank() < bounds[j + 8].rank());
                }
            }
            lemma_route_unique(upper_bounds, k, 0, route(upper_bounds, k));
        } else {
            assert(bounds[7].rank() < k.rank());
            assert(is_route(upper_bounds, k, r - 8)) by {
                assert forall|j: int| 0 <= j < r - 8 implies (#[trigger] upper_bounds[j]).rank() < k.rank() by {
                    assert(upper_bounds[j] == bounds[j + 8]);
                }
                assert forall|j: int| r - 8 <= j < upper_bounds.len() implies k.rank() <= (#[trigger] upper_bounds[j]).rank() by {
                    assert(upper_bounds[j] == bounds[j + 8]);
                }
            }
            lemma_route_unique(upper_bounds, k, r - 8, route(upper_bounds, k));
            assert(is_route(lower_bounds, k, 7)) by {
                assert forall|j: int| 0 <= j < 7 implies (#[trigger] lower_bounds[j]).rank() < k.rank() by {
                    assert(lower_bounds[j] == bounds[j]);
                }
            }
            lemma_route_unique(lower_bounds, k, 7, route(lower_bounds, k));
        }
    }
    assert forall|i: int| 0 <= i < lower_children.len() implies (#[trigger] lower_children[i]).wf()
        && lower_children[i].populated() by {
        assert(lower_children[i] == children[i]);
    }
    assert forall|i: int| 0 <= i < upper_children.len() implies (#[trigger] upper_children[i]).wf()
        && upper_children[i].populated() by {
        assert(upper_children[i] == children[i + 8]);
    }
    assert forall|i: int, k: K| 0 <= i < lower_children.len() && (#[trigger] lower_children[i].contains(k)) implies route(
        lower_bounds,
        k,
    ) == i by {
        assert(lower_children[i] == children[i]);
        assert(children[i].contains(k));
    }
    assert forall|i: int, k: K| 0 <= i < upper_children.len() && (#[trigger] upper_children[i].contains(k)) implies route(
        upper_bounds,
        k,
    ) == i by {
        assert(upper_children[i] == children[i + 8]);
        assert(children[i + 8].contains(k));
    }
    assert forall|k: K|
        holds_in(bounds, children, k) <==> holds_in(lower_bounds, lower_children, k) || holds_in(
            upper_bounds,
            upper_children,
            k,
        ) by {
        let r = route(bounds, k);
        lemma_route(bounds, k);
        if r <= 7 {
            assert(lower_children[r] == children[r]);
            assert(upper_children[0] == children[8]);
            if children[8].contains(k) {
                assert(route(bounds, k) == 8);
            }
        } else {
            assert(upper_children[r - 8] == children[r]);
            assert(lower_children[7] == children[7]);
            if children[7].contains(k) {
                assert(route(bounds, k) == 7);
            }
        }
    }
    assert forall|k: K| holds_in(lower_bounds, lower_children, k) implies k.rank() <= bound.rank() && value_in(
        lower_bounds,
        lower_children,
        k,
    ) == value_in(bounds, children, k) by {
        let r = route(lower_bounds, k);
        assert(lower_children[r] == children[r]);
        assert(children[r].contains(k));
        assert(route(bounds, k) == r);
    }
    assert forall|k: K| holds_in(upper_bounds, upper_children, k) implies bound.rank() < k.rank() && value_in(
        upper_bounds,
        upper_children,
        k,
    ) == value_in(bounds, children, k) by {
        let r = route(upper_bounds, k);
        assert(upper_children[r] == children[r + 8]);
        assert(children[r + 8].contains(k));
        assert(route(bounds, k) == r + 8);
    }
}

impl<K: Key, V> InternalNode<K, V> {
    /// Puts `upper` behind the child at `at`, with `bound` between the two.
    fn install(&mut self, at: usize, bound: K, upper: Node<K, V>)
        requires
            at < old(self).children@.len(),
            old(self).bounds@.len() + 1 == old(self).children@.len(),
        ensures
            final(self).children@ == old(self).children@.insert(at + 1, upper),
            final(self).bounds@ == old(self).bounds@.insert(at as int, bound),
            final(self).retired == old(self).retired,
    {
        let len: usize = self.children.len();
        assert(at < len);
        self.children.insert(at + 1, upper);
        self.bounds.insert(at, bound);
    }

    /// The bounds between the children.
    pub closed spec fn bounds(&self) -> Seq<K> {
        self.bounds@
    }

    /// The children, in the order of their keys.
    pub closed spec fn children(&self) -> Seq<Node<K, V>> {
        self.children@
    }

    /// Whether the node has retired.
    pub closed spec fn spec_retired(&self) -> bool {
        self.retired
    }

    /// Finds the child that is in charge of `key`.
    fn route(&self, key: &K) -> (child: usize)
        requires
            ascending(self.bounds@),
        ensures
            child == route(self.bounds@, *key),
            is_route(self.bounds@, *key, child as int),
    {
        let mut i: usize = 0;
        while i < self.bounds.len() && self.bounds[i].less(key)
            invariant
                ascending(self.bounds@),
                i <= self.bounds@.len(),
                forall|j: int| 0 <= j < i ==> (#[trigger] self.bounds@[j]).rank() < key.rank(),
            decreases self.bounds@.len() - i,
        {
            i += 1;
        }
        proof {
            assert forall|j: int| i <= j < self.bounds@.len() implies key.rank() <= (#[trigger] self.bounds@[j]).rank() by {
                if j > i {
                    assert(self.bounds@[i as int].rank() < self.bounds@[j].rank());
                }
            }
            lemma_route(self.bounds@, *key);
            lemma_route_unique(self.bounds@, *key, i as int, route(self.bounds@, *key));
        }
        i
    }
}

} // verus!
