use std::cmp::Ordering;
use std::fmt;
use truetree::dump::{bracket, padding};
use truetree::{AvlTree, Node, Side, Tree, TreeError};

/// A record that is ordered by its key alone and equal only with its label.
#[derive(Debug, Clone, Eq)]
struct Record {
    key: u32,
    label: String,
}

impl Record {
    fn new(key: u32, label: &str) -> Record {
        Record { key, label: label.to_string() }
    }
}

impl PartialEq for Record {
    fn eq(&self, other: &Self) -> bool {
        self.key == other.key && self.label == other.label
    }
}

impl Ord for Record {
    fn cmp(&self, other: &Self) -> Ordering {
        self.key.cmp(&other.key)
    }
}

impl PartialOrd for Record {
    fn partial_cmp(&self, other: &Self) -> Option<Ordering> {
        Some(self.cmp(other))
    }
}

impl fmt::Display for Record {
    fn fmt(&self, f: &mut fmt::Formatter) -> fmt::Result {
        f.write_str(&format!("{}:{}", self.key, self.label))
    }
}

fn in_order<T: Clone + Ord + Eq + fmt::Debug + fmt::Display>(tree: &Tree<T>, out: &mut Vec<T>) {
    if let Some(node) = tree {
        in_order(&node.left, out);
        out.push(node.value.clone());
        in_order(&node.right, out);
    }
}

fn values_of<T: Clone + Ord + Eq + fmt::Debug + fmt::Display>(tree: &AvlTree<T>) -> Vec<T> {
    let mut out = Vec::new();
    in_order(&tree.root, &mut out);
    out
}

fn leaf(value: u64) -> Tree<u64> {
    Some(Box::new(Node { left: None, right: None, value, height: 1 }))
}

fn node(left: Tree<u64>, value: u64, right: Tree<u64>, height: usize) -> Node<u64> {
    Node { left, right, value, height }
}

/// Numbers that look shuffled and do not repeat: the powers of 11 modulo 1009
/// run through all of 1..=1008 before they come back to 1.
fn shuffled(count: usize) -> Vec<u64> {
    let mut out = Vec::new();
    let mut x: u64 = 1;
    for _ in 0..count {
        x = (x * 11) % 1009;
        out.push(x);
    }
    out
}

#[test]
fn invariants_hold_after_every_insert_and_remove() {
    let values = shuffled(300);
    let mut tree: AvlTree<u64> = AvlTree::new();
    for (i, v) in values.iter().enumerate() {
        assert!(tree.insert(v).is_ok());
        assert!(tree.is_balanced());
        assert!(tree.is_correct());
        assert_eq!(tree.count(), i + 1);
        assert_eq!(tree.height(), tree.depth());
    }
    for (i, v) in values.iter().enumerate() {
        if i % 2 == 0 {
            assert!(tree.remove(v).is_ok());
            assert!(tree.is_balanced());
            assert!(tree.is_correct());
            assert_eq!(tree.height(), tree.depth());
        }
    }
    assert_eq!(tree.count(), 150);
}

#[test]
fn in_order_never_steps_down() {
    let mut tree: AvlTree<u64> = AvlTree::new();
    for v in shuffled(200) {
        tree.insert(&(v % 50)).expect("insert");
    }
    let seen = values_of(&tree);
    assert_eq!(seen.len(), 200);
    for pair in seen.windows(2) {
        assert!(pair[0] <= pair[1]);
    }
    for v in shuffled(60) {
        let _ = tree.remove(&(v % 50));
    }
    let seen = values_of(&tree);
    for pair in seen.windows(2) {
        assert!(pair[0] <= pair[1]);
    }
    assert!(tree.is_balanced());
    assert!(tree.is_correct());
}

#[test]
fn queries_are_pure_reads() {
    let mut tree: AvlTree<u64> = AvlTree::new();
    for v in shuffled(40) {
        tree.insert(&v).expect("insert");
    }
    let count = tree.count();
    let min = tree.min();
    let max = tree.max();
    let before = tree.clone();
    let _ = tree.height();
    let _ = tree.depth();
    let _ = tree.width();
    let _ = tree.is_balanced();
    let _ = tree.is_correct();
    assert_eq!(tree.count(), count);
    assert_eq!(tree.min(), min);
    assert_eq!(tree.max(), max);
    assert_eq!(tree, before);
    let _ = tree.count();
    let _ = tree.min();
    let _ = tree.max();
    assert_eq!(tree.height(), before.height());
    assert_eq!(tree.depth(), before.depth());
    assert_eq!(tree.width(), before.width());
    assert_eq!(tree, before);
}

#[test]
fn round_trip_leaves_an_empty_tree() {
    let values = shuffled(257);
    let mut tree: AvlTree<u64> = AvlTree::new();
    for v in values.iter() {
        tree.insert(v).expect("insert");
    }
    assert_eq!(tree.count(), 257);
    for v in values.iter().rev() {
        assert!(tree.remove(v).is_ok());
    }
    assert_eq!(tree.height(), 0);
    assert_eq!(tree.count(), 0);
    assert!(tree.is_empty());
    assert!(tree.root.is_none());
}

#[test]
fn round_trip_in_the_order_of_insertion() {
    let values = shuffled(64);
    let mut tree: AvlTree<u64> = AvlTree::new();
    for v in values.iter() {
        tree.insert(v).expect("insert");
    }
    for v in values.iter() {
        assert!(tree.remove(v).is_ok());
    }
    assert_eq!(tree.height(), 0);
    assert_eq!(tree.count(), 0);
}

#[test]
fn four_inserts_give_root_66() {
    let mut tree: AvlTree<u64> = AvlTree::new();
    tree.insert(&42).expect("insert").insert(&420).expect("insert").insert(&66).expect(
        "insert",
    ).insert(&88).expect("insert");
    assert_eq!(tree.root.as_ref().unwrap().value, 66);
    assert_eq!(tree.height(), 3);
    assert_eq!(tree.width(), 3);
    assert_eq!(tree.count(), 4);
    assert_eq!(values_of(&tree), vec![42, 66, 88, 420]);
}

#[test]
fn an_equal_value_goes_to_the_left_of_its_equals() {
    let mut tree: AvlTree<Record> = AvlTree::new();
    tree.insert(&Record::new(5, "first")).expect("insert");
    tree.insert(&Record::new(5, "second")).expect("insert");
    tree.insert(&Record::new(5, "third")).expect("insert");
    tree.insert(&Record::new(3, "low")).expect("insert");
    tree.insert(&Record::new(9, "high")).expect("insert");
    let labels: Vec<String> = values_of(&tree).into_iter().map(|r| r.label).collect();
    assert_eq!(labels, vec!["low", "third", "second", "first", "high"]);
    assert!(tree.is_balanced());
    assert!(tree.is_correct());
}

#[test]
fn remove_after_two_removals_reports_not_found() {
    let mut tree: AvlTree<u64> = AvlTree::new();
    for v in [42u64, 420, 66, 88, 99] {
        tree.insert(&v).expect("insert");
    }
    assert!(tree.remove(&42).is_ok());
    assert!(tree.remove(&420).is_ok());
    assert_eq!(tree.height(), 2);
    assert!(tree.is_balanced());
    assert_eq!(tree.remove(&420).err(), Some(TreeError::NotFound));
    assert_eq!(tree.count(), 3);
    assert_eq!(values_of(&tree), vec![66, 88, 99]);
}

#[test]
fn remove_on_an_empty_tree_reports_empty_tree() {
    let mut tree: AvlTree<u64> = AvlTree::new();
    assert_eq!(tree.remove(&1).err(), Some(TreeError::EmptyTree));
    assert!(tree.is_empty());
}

#[test]
fn dump_of_an_empty_tree_reports_empty_tree() {
    let tree: AvlTree<u64> = AvlTree::new();
    assert_eq!(tree.dump(false), Err(TreeError::EmptyTree));
    assert_eq!(tree.dump(true), Err(TreeError::EmptyTree));
}

#[test]
fn find_of_a_missing_value_reports_not_found() {
    let tree: AvlTree<u64> = AvlTree::with(&5);
    assert_eq!(tree.find(&6).err(), Some(TreeError::NotFound));
    let empty: AvlTree<u64> = AvlTree::new();
    assert_eq!(empty.find(&6).err(), Some(TreeError::NotFound));
}

#[test]
fn removal_by_a_partial_key_reports_the_mismatch_and_still_removes() {
    let mut tree: AvlTree<Record> = AvlTree::new();
    tree.insert(&Record::new(1, "one")).expect("insert");
    tree.insert(&Record::new(2, "two")).expect("insert");
    tree.insert(&Record::new(3, "three")).expect("insert");
    let probe = Record::new(2, "");
    assert!(tree.contains(&probe));
    assert!(!tree.contains_exact(&probe));
    assert_eq!(tree.get(&probe), Some(Record::new(2, "two")));
    assert_eq!(tree.remove(&probe).err(), Some(TreeError::MismatchedRemoval));
    assert_eq!(tree.count(), 2);
    assert!(!tree.contains(&probe));
    assert!(tree.is_balanced());
    assert!(tree.is_correct());
    assert_eq!(tree.remove(&probe).err(), Some(TreeError::NotFound));
    assert!(tree.remove(&Record::new(3, "three")).is_ok());
    assert_eq!(tree.count(), 1);
}

#[test]
fn fail_fails_and_works_works() {
    let mut tree: AvlTree<u64> = AvlTree::with(&7);
    assert_eq!(tree.fail().err(), Some(TreeError::AlwaysFails));
    assert_eq!(tree.count(), 1);
    assert!(tree.works().is_ok());
    assert_eq!(tree.works().expect("works").count(), 1);
}

#[test]
fn every_error_has_its_sentence() {
    assert_eq!(TreeError::EmptyTree.message(), "You don't have any node in the tree");
    assert_eq!(TreeError::NotFound.message(), "The value was not found");
    assert_eq!(TreeError::DuplicateInsert.message(), "Can not insert same value twice");
    assert_eq!(
        TreeError::MismatchedRemoval.message(),
        "ERROR ! The value removed was not the correct one."
    );
    assert_eq!(TreeError::AlwaysFails.message(), "Oups, I always fail");
}

#[test]
fn inserting_a_value_twice_is_no_error() {
    let mut tree: AvlTree<u64> = AvlTree::new();
    assert!(tree.insert(&5).is_ok());
    assert!(tree.insert(&5).is_ok());
    assert!(tree.insert(&5).is_ok());
    assert_eq!(tree.count(), 3);
    assert_eq!(tree.height(), 2);
    assert_eq!(values_of(&tree), vec![5, 5, 5]);
}

#[test]
fn equal_values_on_both_sides_can_all_be_removed() {
    let mut tree: AvlTree<u64> = AvlTree::new();
    tree.insert(&42).expect("insert");
    tree.insert(&420).expect("insert");
    tree.insert(&420).expect("insert");
    assert_eq!(tree.root.as_ref().unwrap().value, 420);
    assert_eq!(tree.root.as_ref().unwrap().right.as_ref().unwrap().value, 420);
    assert!(tree.remove(&420).is_ok());
    assert!(tree.remove(&420).is_ok());
    assert_eq!(tree.remove(&420).err(), Some(TreeError::NotFound));
    assert_eq!(values_of(&tree), vec![42]);
}

#[test]
fn with_makes_a_tree_of_one_entry() {
    let tree: AvlTree<u64> = AvlTree::with(&11);
    assert!(!tree.is_empty());
    assert_eq!(tree.count(), 1);
    assert_eq!(tree.height(), 1);
    assert_eq!(tree.depth(), 1);
    assert_eq!(tree.width(), 1);
    assert_eq!(tree.min(), Some(11));
    assert_eq!(tree.max(), Some(11));
    assert!(tree.contains(&11));
    assert!(tree.contains_exact(&11));
    assert_eq!(tree.get(&11), Some(11));
    assert_eq!(tree.get(&12), None);
}

#[test]
fn an_empty_tree_answers_like_an_empty_collection() {
    let tree: AvlTree<u64> = AvlTree::new();
    assert!(tree.is_empty());
    assert_eq!(tree.height(), 0);
    assert_eq!(tree.depth(), 0);
    assert_eq!(tree.width(), 0);
    assert_eq!(tree.count(), 0);
    assert_eq!(tree.min(), None);
    assert_eq!(tree.max(), None);
    assert!(tree.is_balanced());
    assert!(tree.is_correct());
    assert!(!tree.contains(&1));
    assert!(!tree.contains_exact(&1));
    assert_eq!(tree.get(&1), None);
}

#[test]
fn clear_empties_a_tree_that_can_be_used_again() {
    let mut tree: AvlTree<u64> = AvlTree::new();
    for v in shuffled(20) {
        tree.insert(&v).expect("insert");
    }
    tree.clear();
    assert!(tree.is_empty());
    assert_eq!(tree.count(), 0);
    tree.clear();
    assert!(tree.is_empty());
    tree.insert(&3).expect("insert");
    assert_eq!(tree.count(), 1);
}

#[test]
fn find_hands_out_a_copy_of_the_subtree() {
    let mut tree: AvlTree<u64> = AvlTree::new();
    for v in [10u64, 20, 30, 50, 40] {
        tree.insert(&v).expect("insert");
    }
    let mut below = tree.find(&40).expect("find");
    assert_eq!(below.root.as_ref().unwrap().value, 40);
    assert_eq!(below.count(), 3);
    assert_eq!(values_of(&below), vec![30, 40, 50]);
    assert_eq!(below.root, tree.root.as_ref().unwrap().right);
    below.remove(&30).expect("remove");
    assert_eq!(below.count(), 2);
    assert_eq!(tree.count(), 5);
    assert!(tree.contains(&30));
}

#[test]
fn a_clone_is_equal_and_apart() {
    let mut tree: AvlTree<u64> = AvlTree::new();
    for v in shuffled(15) {
        tree.insert(&v).expect("insert");
    }
    let mut copy = tree.clone();
    assert_eq!(copy, tree);
    copy.insert(&5000).expect("insert");
    assert_eq!(copy.count(), 16);
    assert_eq!(tree.count(), 15);
    assert_ne!(copy, tree);
}

#[test]
fn min_and_max_are_the_ends_of_the_in_order_sequence() {
    let mut tree: AvlTree<u64> = AvlTree::new();
    for v in shuffled(100) {
        tree.insert(&v).expect("insert");
    }
    let seen = values_of(&tree);
    assert_eq!(tree.min(), Some(seen[0]));
    assert_eq!(tree.max(), Some(seen[99]));
    assert_eq!(tree.min(), seen.iter().min().cloned());
    assert_eq!(tree.max(), seen.iter().max().cloned());
}

#[test]
fn width_counts_the_nodes_that_lack_a_child() {
    let one_child = node(leaf(1), 2, None, 2);
    assert_eq!(one_child.width(), 2);
    let two_children = node(leaf(1), 2, leaf(3), 2);
    assert_eq!(two_children.width(), 2);
    let chain = node(Some(Box::new(node(leaf(1), 2, None, 2))), 3, None, 3);
    assert_eq!(chain.width(), 3);
    assert_eq!(chain.count(), 3);
    assert_eq!(chain.depth(), 3);
    let full = node(
        Some(Box::new(node(leaf(1), 2, leaf(3), 2))),
        4,
        Some(Box::new(node(leaf(5), 6, leaf(7), 2))),
        3,
    );
    assert_eq!(full.width(), 4);
    assert_eq!(full.count(), 7);
    assert_eq!(full.depth(), 3);
}

#[test]
fn the_balance_factor_is_left_minus_right_and_stops_at_127() {
    assert_eq!(node(None, 1, None, 1).balance_factor(), 0);
    assert_eq!(node(leaf(0), 1, None, 2).balance_factor(), 1);
    assert_eq!(node(None, 1, leaf(2), 2).balance_factor(), -1);
    let tall = Some(Box::new(node(None, 0, None, 2)));
    assert_eq!(node(tall.clone(), 1, None, 3).balance_factor(), 2);
    assert_eq!(node(None, 1, tall, 3).balance_factor(), -2);
    let odd = Some(Box::new(node(None, 0, None, 127)));
    assert_eq!(node(odd.clone(), 1, leaf(2), 0).balance_factor(), 126);
    assert_eq!(node(leaf(2), 1, odd, 0).balance_factor(), -126);
    let huge = Some(Box::new(node(None, 0, None, 254)));
    assert_eq!(node(huge.clone(), 1, None, 0).balance_factor(), 127);
    assert_eq!(node(None, 1, huge, 0).balance_factor(), -127);
    let limit = Some(Box::new(node(None, 0, None, usize::MAX)));
    assert_eq!(node(limit.clone(), 1, None, 0).balance_factor(), 127);
    assert_eq!(node(None, 1, limit, 0).balance_factor(), -127);
}

#[test]
fn cached_heights_are_read_and_refreshed() {
    let mut top = node(leaf(1), 2, Some(Box::new(node(None, 3, leaf(4), 2))), 9);
    assert_eq!(top.height(), 9);
    assert_eq!(top.left_height(), 1);
    assert_eq!(top.right_height(), 2);
    assert!(!top.sanity_check());
    top.update_height();
    assert_eq!(top.height(), 3);
    assert!(top.sanity_check());
    assert_eq!(node(None, 1, None, 5).left_height(), 0);
    assert_eq!(node(None, 1, None, 5).right_height(), 0);
}

#[test]
fn a_rotation_without_a_child_to_lift_changes_nothing() {
    let mut only_left = node(leaf(1), 2, None, 2);
    let before = only_left.clone();
    assert!(!only_left.rotate(Side::Left));
    assert_eq!(only_left, before);
    let mut only_right = node(None, 2, leaf(3), 2);
    let before = only_right.clone();
    assert!(!only_right.rotate(Side::Right));
    assert_eq!(only_right, before);
}

#[test]
fn a_rotation_keeps_the_in_order_sequence_and_refreshes_heights() {
    let mut top = node(
        Some(Box::new(node(leaf(1), 2, leaf(3), 2))),
        4,
        leaf(5),
        3,
    );
    assert!(top.rotate(Side::Right));
    let expected = node(
        leaf(1),
        2,
        Some(Box::new(node(leaf(3), 4, leaf(5), 2))),
        3,
    );
    assert_eq!(top, expected);
    assert!(top.rotate(Side::Left));
    let back = node(
        Some(Box::new(node(leaf(1), 2, leaf(3), 2))),
        4,
        leaf(5),
        3,
    );
    assert_eq!(top, back);
}

#[test]
fn rebalance_turns_twice_where_the_child_leans_inwards() {
    let mut left_right = node(
        Some(Box::new(node(None, 1, leaf(2), 2))),
        3,
        None,
        3,
    );
    assert!(left_right.rebalance());
    assert_eq!(left_right, node(leaf(1), 2, leaf(3), 2));
    let mut right_left = node(
        None,
        1,
        Some(Box::new(node(leaf(2), 3, None, 2))),
        3,
    );
    assert!(right_left.rebalance());
    assert_eq!(right_left, node(leaf(1), 2, leaf(3), 2));
}

#[test]
fn rebalance_turns_once_where_the_child_leans_outwards() {
    let mut right_right = node(
        None,
        1,
        Some(Box::new(node(None, 2, leaf(3), 2))),
        3,
    );
    assert!(right_right.rebalance());
    assert_eq!(right_right, node(leaf(1), 2, leaf(3), 2));
    let mut left_left = node(
        Some(Box::new(node(leaf(1), 2, None, 2))),
        3,
        None,
        3,
    );
    assert!(left_left.rebalance());
    assert_eq!(left_left, node(leaf(1), 2, leaf(3), 2));
}

#[test]
fn rebalance_of_a_balanced_node_only_refreshes_the_height() {
    let mut stale = node(leaf(1), 2, leaf(3), 17);
    assert!(!stale.rebalance());
    assert_eq!(stale, node(leaf(1), 2, leaf(3), 2));
    let mut lopsided = node(
        Some(Box::new(node(Some(Box::new(node(leaf(0), 1, None, 2))), 2, None, 3))),
        3,
        None,
        0,
    );
    assert!(!lopsided.rebalance());
    assert_eq!(lopsided.height, 4);
    assert_eq!(lopsided.value, 3);
}

#[test]
fn remove_moves_the_successor_into_the_place_of_the_entry() {
    let mut tree: Tree<u64> = Some(Box::new(node(
        Some(Box::new(node(leaf(1), 2, leaf(3), 2))),
        4,
        Some(Box::new(node(leaf(5), 6, leaf(7), 2))),
        3,
    )));
    assert_eq!(Node::remove(&mut tree, &4), Some(4));
    let expected: Tree<u64> = Some(Box::new(node(
        Some(Box::new(node(leaf(1), 2, leaf(3), 2))),
        5,
        Some(Box::new(node(None, 6, leaf(7), 2))),
        3,
    )));
    assert_eq!(tree, expected);
    assert_eq!(Node::remove(&mut tree, &8), None);
    assert_eq!(tree, expected);
}

#[test]
fn remove_without_a_right_child_lifts_the_left_subtree() {
    let mut tree: Tree<u64> = Some(Box::new(node(leaf(1), 2, None, 2)));
    assert_eq!(Node::remove(&mut tree, &2), Some(2));
    assert_eq!(tree, leaf(1));
    assert_eq!(Node::remove(&mut tree, &1), Some(1));
    assert_eq!(tree, None);
    assert_eq!(Node::remove(&mut tree, &1), None);
}

#[test]
fn remove_min_takes_the_leftmost_and_rebalances() {
    let mut tree: Tree<u64> = Some(Box::new(node(
        leaf(1),
        2,
        Some(Box::new(node(None, 3, leaf(4), 2))),
        3,
    )));
    assert_eq!(Node::remove_min(&mut tree), 1);
    let expected: Tree<u64> = Some(Box::new(node(leaf(2), 3, leaf(4), 2)));
    assert_eq!(tree, expected);
    assert_eq!(Node::remove_min(&mut tree), 2);
    assert_eq!(Node::remove_min(&mut tree), 3);
    assert_eq!(Node::remove_min(&mut tree), 4);
    assert_eq!(tree, None);
}

#[test]
fn get_returns_the_first_equivalent_entry_on_the_way_down() {
    let mut tree: AvlTree<Record> = AvlTree::new();
    tree.insert(&Record::new(5, "first")).expect("insert");
    tree.insert(&Record::new(5, "second")).expect("insert");
    tree.insert(&Record::new(5, "third")).expect("insert");
    let root_label = tree.root.as_ref().unwrap().value.label.clone();
    assert_eq!(tree.get(&Record::new(5, "")).unwrap().label, root_label);
    let found = Node::get(&tree.root, &Record::new(5, ""));
    assert_eq!(found, &tree.root);
    assert!(tree.contains_exact(&Record::new(5, &root_label)));
}

#[test]
fn delete_leaves_the_slot_empty() {
    let mut tree: Tree<u64> = Node::create_tree(&1);
    tree.as_mut().unwrap().insert(2);
    tree.as_mut().unwrap().insert(3);
    Node::delete(&mut tree);
    assert_eq!(tree, None);
    Node::delete(&mut tree);
    assert_eq!(tree, None);
}

#[test]
fn children_are_indexed_by_side() {
    let top = node(leaf(1), 2, None, 2);
    assert_eq!(top.children().len(), 2);
    assert_eq!(top.children()[Side::Left as usize], &leaf(1));
    assert_eq!(top.children()[Side::Right as usize], &None);
    assert_eq!(top.children()[!Side::Right as usize], &leaf(1));
}

#[test]
fn padding_is_three_spaces_a_level() {
    assert_eq!(padding(0), "");
    assert_eq!(padding(1), "   ");
    assert_eq!(padding(3), "         ");
}

#[test]
fn bracket_writes_one_node() {
    assert_eq!(bracket("7", "null", "null", false, 1), "[7,null,null]");
    assert_eq!(bracket("7", "[1,null,null]", "null", false, 4), "[7,[1,null,null],null]");
    assert_eq!(bracket("7", "null", "null", true, 1), "[\n   7,\n   null,\n   null\n]");
    assert_eq!(
        bracket("7", "null", "x", true, 2),
        "[\n      7,\n      null,\n      x\n   ]"
    );
    assert_eq!(bracket("7", "a", "b", true, 0), "[\n7,\na,\nb\n]");
    assert_eq!(bracket("", "", "", false, 0), "[,,]");
}

#[test]
fn dump_takes_the_text_of_a_payload_as_it_is() {
    let mut tree: AvlTree<Record> = AvlTree::new();
    tree.insert(&Record::new(2, "b")).expect("insert");
    tree.insert(&Record::new(1, "a")).expect("insert");
    assert_eq!(tree.dump(false), Ok("[2:b,[1:a,null,null],null]".to_string()));
    assert_eq!(
        tree.dump(true),
        Ok("[\n   2:b,\n   [\n      1:a,\n      null,\n      null\n   ],\n   null\n]".to_string())
    );
    let inner = tree.root.as_ref().unwrap().left.as_ref().unwrap();
    assert_eq!(inner._dump(false, 2), "[1:a,null,null]");
    assert_eq!(inner._dump(true, 2), "[\n      1:a,\n      null,\n      null\n   ]");
}

#[test]
fn sanity_check_and_is_balanced_look_at_different_things() {
    let stale = node(leaf(1), 2, leaf(3), 5);
    assert!(!stale.sanity_check());
    assert!(stale.is_balanced());
    let chain = node(Some(Box::new(node(leaf(1), 2, None, 2))), 3, None, 3);
    assert!(chain.sanity_check());
    assert!(!chain.is_balanced());
    let at_the_limit = node(None, 1, Some(Box::new(node(None, 2, None, usize::MAX))), 0);
    assert!(!at_the_limit.sanity_check());
}

#[test]
fn insert_into_a_node_keeps_the_subtree_balanced() {
    let mut top = Node::create_node(&50u64);
    for v in shuffled(120) {
        assert!(top.insert(v));
        assert!(top.is_balanced());
        assert!(top.sanity_check());
        assert_eq!(top.depth(), top.height());
    }
    assert_eq!(top.count(), 121);
    assert!(top.min() <= top.max());
}
