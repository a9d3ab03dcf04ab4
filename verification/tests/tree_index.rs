use scc::tree_index::key::Key;
use scc::tree_index::leaf::{InsertResult, RemoveResult};
use scc::tree_index::leaf_node::{LeafNode, DIMENSION};
use scc::tree_index::node::Node;

fn insert(root: &mut Node<u64, u64>, key: u64, val: u64) -> bool {
    let mut pair = (key, val);
    loop {
        match root.insert(pair.0, pair.1) {
            Ok(InsertResult::Success) => return true,
            Ok(InsertResult::Duplicate(_, _)) => return false,
            Ok(InsertResult::Full(k, v)) => pair = Node::split_root(k, v, root),
            Ok(InsertResult::Retry(k, v)) => pair = (k, v),
            Ok(InsertResult::Retired(_, _)) => panic!("retired"),
            Err(_) => panic!("conflict"),
        }
    }
}

fn is_success<K, V>(result: Result<InsertResult<K, V>, (K, V)>) -> bool {
    matches!(result, Ok(InsertResult::Success))
}

#[test]
fn keys_are_ordered_by_rank() {
    assert!(1u64.less(&2));
    assert!(!2u64.less(&2));
    assert!(!3u64.less(&2));
    assert!((-1i64).less(&0));
    assert!(1u32.less(&2));
    assert!(1usize.less(&2));
}

#[test]
fn new_nodes_are_empty() {
    let leaf: Node<u64, u64> = Node::new_leaf_node();
    assert!(!leaf.retired());
    assert_eq!(leaf.depth(1), 1);
    assert_eq!(leaf.search(&1), None);
    assert!(leaf.min().is_none());
    assert!(leaf.max().is_none());
    assert!(leaf.max_le_appr(&5).is_none());
    assert!(leaf.next(&0).is_none());
    let internal: Node<u64, u64> = Node::new_internal_node();
    assert!(!internal.retired());
    assert_eq!(internal.depth(1), 1);
    assert_eq!(internal.search(&1), None);
    assert!(internal.min().is_none());
    assert!(internal.next(&0).is_none());
}

#[test]
fn internal_node_without_children_makes_a_leaf() {
    let mut root: Node<u64, u64> = Node::new_internal_node();
    assert_eq!(root.remove_if(&1, &|_v: &u64| true), Ok(RemoveResult::Fail));
    assert!(!root.retired());
    assert!(is_success(root.insert(5, 50)));
    assert_eq!(root.depth(1), 2);
    assert_eq!(root.search(&5), Some(&50));
    assert!(is_success(root.insert(3, 30)));
    assert_eq!(root.min().unwrap().get(), (&3, &30));
    assert!(!root.retired());
}

#[test]
fn retired_node_stays_retired() {
    let mut root: Node<u64, u64> = Node::new_internal_node();
    assert!(is_success(root.insert(5, 50)));
    assert_eq!(root.remove_if(&5, &|_v: &u64| true), Ok(RemoveResult::Retired));
    assert!(root.retired());
    assert!(matches!(root.insert(5, 50), Ok(InsertResult::Retired(5, 50))));
    assert!(root.retired());
    assert_eq!(root.remove_if(&5, &|_v: &u64| true), Ok(RemoveResult::Fail));
    assert!(root.retired());
    assert_eq!(root.search(&5), None);
    assert!(root.min().is_none());
    assert!(root.retired());
    let mut leaf: Node<u64, u64> = Node::new_leaf_node();
    assert!(is_success(leaf.insert(1, 1)));
    assert!(!leaf.retired());
    assert_eq!(leaf.remove_if(&1, &|_v: &u64| true), Ok(RemoveResult::Retired));
    assert!(leaf.retired());
    assert!(matches!(leaf.insert(1, 1), Ok(InsertResult::Retired(1, 1))));
    assert_eq!(leaf.remove_if(&1, &|_v: &u64| true), Ok(RemoveResult::Fail));
    assert!(leaf.retired());
}

#[test]
fn scan_goes_through_the_keys_in_ascending_order() {
    let mut root: Node<u64, u64> = Node::new_leaf_node();
    let count = 3000u64;
    for step in 0..count {
        let key = (step * 7919) % count;
        assert!(insert(&mut root, key * 3, key));
    }
    let mut expected = 0u64;
    let mut scanner = root.min();
    while let Some(at) = scanner {
        let (key, val) = at.get();
        assert_eq!((*key, *val), (expected * 3, expected));
        expected += 1;
        scanner = root.next(key);
    }
    assert_eq!(expected, count);
    // A scan may start between two keys, or before the first.
    assert_eq!(root.next(&4).unwrap().get(), (&6, &2));
    assert_eq!(root.next(&5).unwrap().get(), (&6, &2));
    assert_eq!(root.next(&6).unwrap().get(), (&9, &3));
    assert!(root.next(&((count - 1) * 3)).is_none());
    assert!(root.next(&u64::MAX).is_none());
}

#[test]
fn leaf_node_steps_to_the_next_entry() {
    let mut leaf: LeafNode<u64, u64> = LeafNode::new();
    assert!(leaf.next(&0).is_none());
    for key in [5u64, 1, 9] {
        assert!(matches!(leaf.insert(key, key * 10), InsertResult::Success));
    }
    assert_eq!(leaf.next(&0).unwrap().get(), (&1, &10));
    assert_eq!(leaf.next(&1).unwrap().get(), (&5, &50));
    assert_eq!(leaf.next(&4).unwrap().get(), (&5, &50));
    assert_eq!(leaf.next(&5).unwrap().get(), (&9, &90));
    assert!(leaf.next(&9).is_none());
    assert!(leaf.next(&10).is_none());
}

#[test]
fn leaf_node_keeps_entries_sorted() {
    let mut leaf: LeafNode<u64, u64> = LeafNode::new();
    for key in [5u64, 1, 9, 3, 7] {
        assert!(matches!(leaf.insert(key, key * 10), InsertResult::Success));
    }
    assert_eq!(leaf.len(), 5);
    assert_eq!(leaf.find(&1), (0, true));
    assert_eq!(leaf.find(&4), (2, false));
    assert_eq!(leaf.find(&9), (4, true));
    assert_eq!(leaf.find(&10), (5, false));
    assert_eq!(leaf.search(&7), Some(&70));
    assert_eq!(leaf.search(&8), None);
    assert_eq!(leaf.min().unwrap().get(), (&1, &10));
    assert_eq!(leaf.at(2).get(), (&5, &50));
    assert_eq!(leaf.max_le_appr(&6).unwrap().get(), (&5, &50));
    assert_eq!(leaf.max_le_appr(&5).unwrap().get(), (&5, &50));
    assert_eq!(leaf.max_le_appr(&100).unwrap().get(), (&9, &90));
    assert!(leaf.max_le_appr(&0).is_none());
}

#[test]
fn leaf_node_answers_duplicate_full_and_retired() {
    let mut leaf: LeafNode<u64, u64> = LeafNode::new();
    for key in 0..DIMENSION as u64 {
        assert!(matches!(leaf.insert(key, key), InsertResult::Success));
    }
    assert!(matches!(leaf.insert(3, 33), InsertResult::Duplicate(3, 33)));
    assert!(matches!(leaf.insert(100, 1), InsertResult::Full(100, 1)));
    let (bound, upper) = leaf.split();
    assert_eq!(bound, 6);
    assert_eq!(leaf.len(), 7);
    assert_eq!(upper.len(), 7);
    assert_eq!(upper.min().unwrap().get(), (&7, &7));
    for key in 0..7u64 {
        assert_eq!(leaf.take_if(&key, &|_v: &u64| true), Some((key, key)));
    }
    assert!(leaf.retired());
    assert!(matches!(leaf.insert(1, 1), InsertResult::Retired(1, 1)));
    assert_eq!(leaf.take_if(&1, &|_v: &u64| true), None);
}

#[test]
fn leaf_root_takes_and_gives_entries() {
    let mut root: Node<u64, u64> = Node::new_leaf_node();
    assert!(is_success(root.insert(1, 10)));
    assert!(matches!(root.insert(1, 11), Ok(InsertResult::Duplicate(1, 11))));
    assert_eq!(root.search(&1), Some(&10));
    assert_eq!(root.remove_if(&1, &|v: &u64| *v == 11), Ok(RemoveResult::Fail));
    assert_eq!(root.remove_if(&2, &|_v: &u64| true), Ok(RemoveResult::Fail));
    assert!(is_success(root.insert(2, 20)));
    assert_eq!(root.remove_if(&1, &|v: &u64| *v == 10), Ok(RemoveResult::Success));
    assert_eq!(root.remove_if(&2, &|_v: &u64| true), Ok(RemoveResult::Retired));
    assert!(root.retired());
    assert!(matches!(root.insert(3, 30), Ok(InsertResult::Retired(3, 30))));
}

#[test]
fn full_root_is_split() {
    let mut root: Node<u64, u64> = Node::new_leaf_node();
    for key in 0..DIMENSION as u64 {
        assert!(is_success(root.insert(key, key)));
    }
    assert!(matches!(root.insert(100, 1), Ok(InsertResult::Full(100, 1))));
    assert_eq!(root.depth(1), 1);
    assert_eq!(Node::split_root(100, 1, &mut root), (100, 1));
    assert_eq!(root.depth(1), 2);
    assert!(!root.retired());
    for key in 0..DIMENSION as u64 {
        assert_eq!(root.search(&key), Some(&key));
    }
    assert!(is_success(root.insert(100, 1)));
    assert_eq!(root.search(&100), Some(&1));
}

#[test]
fn full_child_is_split_on_retry() {
    let mut root: Node<u64, u64> = Node::new_leaf_node();
    for key in 0..DIMENSION as u64 {
        assert!(is_success(root.insert(key * 2, key)));
    }
    Node::split_root(0, 0, &mut root);
    // The upper half has seven entries and takes seven more.
    for key in 0..7u64 {
        assert!(is_success(root.insert(100 + key, key)));
    }
    assert!(matches!(root.insert(200, 1), Ok(InsertResult::Retry(200, 1))));
    assert!(is_success(root.insert(200, 1)));
    assert_eq!(root.depth(1), 2);
}

#[test]
fn tree_grows_and_finds_every_key() {
    let mut root: Node<u64, u64> = Node::new_leaf_node();
    let count = 5000u64;
    for step in 0..count {
        let key = (step * 7919) % count;
        assert!(insert(&mut root, key, key + 1));
    }
    for key in 0..count {
        assert!(!insert(&mut root, key, 0));
    }
    assert!(root.depth(1) >= 3);
    for key in 0..count {
        assert_eq!(root.search(&key), Some(&(key + 1)));
    }
    assert_eq!(root.search(&count), None);
    assert_eq!(root.min().unwrap().get(), (&0, &1));
    assert_eq!(root.max().unwrap().get(), (&(count - 1), &count));
    assert_eq!(root.max_le_appr(&1234).unwrap().get(), (&1234, &1235));
    assert_eq!(root.max_le_appr(&(count + 10)).unwrap().get(), (&(count - 1), &count));
}

#[test]
fn max_le_appr_finds_the_key_before_a_gap() {
    let mut root: Node<u64, u64> = Node::new_leaf_node();
    for key in 1..=500u64 {
        assert!(insert(&mut root, key * 10, key));
    }
    assert!(root.max_le_appr(&9).is_none());
    assert_eq!(root.max_le_appr(&10).unwrap().get(), (&10, &1));
    for key in 1..=500u64 {
        assert_eq!(root.max_le_appr(&(key * 10 + 5)).unwrap().get(), (&(key * 10), &key));
        assert_eq!(root.max_le_appr(&(key * 10 + 9)).unwrap().get(), (&(key * 10), &key));
    }
}

#[test]
fn removing_every_key_retires_the_tree() {
    let guard = crossbeam_epoch::pin();
    let mut root: Node<u64, u64> = Node::new_leaf_node();
    let count = 2000u64;
    for key in 0..count {
        assert!(insert(&mut root, key, key));
    }
    for key in 0..count {
        if key % 2 == 0 {
            assert_eq!(root.remove_if(&key, &|_v: &u64| true), Ok(RemoveResult::Success));
        }
    }
    for key in 0..count {
        assert_eq!(root.search(&key), if key % 2 == 0 { None } else { Some(&key) });
    }
    assert_eq!(root.min().unwrap().get(), (&1, &1));
    for key in 0..count {
        if key % 2 == 1 {
            let expected = if key == count - 1 { RemoveResult::Retired } else { RemoveResult::Success };
            assert_eq!(root.remove_if(&key, &|_v: &u64| true), Ok(expected));
        }
    }
    assert!(root.retired());
    assert!(root.min().is_none());
    let mut holder = Some(root);
    assert_eq!(Node::remove_root(&mut holder, &guard), Ok(true));
    assert!(holder.is_none());
    assert_eq!(Node::remove_root(&mut holder, &guard), Err(()));
}

#[test]
fn root_that_is_in_use_stays() {
    let guard = crossbeam_epoch::pin();
    let mut root: Node<u64, u64> = Node::new_leaf_node();
    assert!(insert(&mut root, 1, 1));
    let mut holder = Some(root);
    assert_eq!(Node::remove_root(&mut holder, &guard), Ok(false));
    assert_eq!(holder.as_ref().unwrap().search(&1), Some(&1));
}

#[test]
fn commit_puts_the_upper_half_behind_the_lower() {
    let mut parent: Node<u64, u64> = Node::new_internal_node();
    for key in 1..=7u64 {
        assert!(is_success(parent.insert(key, key * 10)));
    }
    let mut upper: Node<u64, u64> = Node::new_leaf_node();
    for key in 8..=14u64 {
        assert!(is_success(upper.insert(key, key * 10)));
    }
    parent.commit(0, 7, upper);
    assert_eq!(parent.depth(1), 2);
    for key in 1..=14u64 {
        assert_eq!(parent.search(&key), Some(&(key * 10)));
    }
    assert_eq!(parent.search(&15), None);
    assert_eq!(parent.next(&7).unwrap().get(), (&8, &80));
    // Both halves have room now.
    assert!(is_success(parent.insert(0, 0)));
    assert!(is_success(parent.insert(15, 150)));
    assert_eq!(parent.max().unwrap().get(), (&15, &150));
}

#[test]
fn rollback_undoes_the_split_of_a_leaf_node() {
    let mut node: Node<u64, u64> = Node::new_leaf_node();
    for key in 0..DIMENSION as u64 {
        assert!(is_success(node.insert(key * 2, key)));
    }
    let (bound, upper) = node.split();
    assert_eq!(bound, 12);
    assert_eq!(node.search(&12), Some(&6));
    assert_eq!(node.search(&14), None);
    assert_eq!(upper.search(&14), Some(&7));
    assert_eq!(upper.min().unwrap().get(), (&14, &7));
    node.rollback(bound, upper);
    for key in 0..DIMENSION as u64 {
        assert_eq!(node.search(&(key * 2)), Some(&key));
    }
    assert!(matches!(node.insert(1, 1), Ok(InsertResult::Full(1, 1))));
    assert_eq!(node.depth(1), 1);
    assert!(!node.retired());
}

#[test]
fn rollback_undoes_the_split_of_an_internal_node() {
    let mut root: Node<u64, u64> = Node::new_leaf_node();
    let mut count = 0u64;
    // Ascending keys fill the last leaf again and again, until the root has no room left.
    loop {
        match root.insert(count, count) {
            Ok(InsertResult::Success) => count += 1,
            Ok(InsertResult::Retry(_, _)) => {},
            Ok(InsertResult::Full(key, val)) => {
                if root.depth(1) == 2 {
                    break;
                }
                assert_eq!(Node::split_root(key, val, &mut root), (count, count));
            },
            _ => panic!("unexpected"),
        }
    }
    assert_eq!(root.depth(1), 2);
    let (bound, upper) = root.split();
    assert_eq!(root.max().unwrap().get().0, &bound);
    assert!(upper.min().unwrap().get().0 > &bound);
    assert_eq!(upper.max().unwrap().get(), (&(count - 1), &(count - 1)));
    assert_eq!(root.search(&(count - 1)), None);
    root.rollback(bound, upper);
    assert_eq!(root.depth(1), 2);
    for key in 0..count {
        assert_eq!(root.search(&key), Some(&key));
    }
    assert!(matches!(root.insert(count, count), Ok(InsertResult::Full(_, _))));
    // The split that is committed under a new root makes room.
    Node::split_root(count, count, &mut root);
    assert_eq!(root.depth(1), 3);
    assert!(insert(&mut root, count, count));
    for key in 0..=count {
        assert_eq!(root.search(&key), Some(&key));
    }
}
