use bst::{Leaf, Tree};
use rand::seq::SliceRandom;
use rand::thread_rng;

#[test]
fn insert() {
    let mut root = Tree::new();
    assert!(root.insert(3));
    assert!(root.insert(2));
    assert!(root.insert(4));
    assert!(root.insert(1));
    assert!(root.insert(5));
    assert!(!root.insert(3));
}

#[test]
fn contains() {
    let mut root = Tree::new();
    assert!(root.insert(3));
    assert!(root.insert(2));
    assert!(root.insert(4));
    assert!(root.insert(1));
    assert!(root.insert(5));
    assert!(!root.insert(3));

    assert!(root.contains(4));
    assert!(root.contains(5));
    assert!(!root.contains(6));
}

#[test]
fn large_tree() {
    let mut rng = thread_rng();
    let mut nums = (0..1_000_000).collect::<Vec<u64>>();
    nums.shuffle(&mut rng);
    let thing = Tree::build_from_sequence(nums);

    for i in 0..1_000_000 {
        assert!(thing.contains(i));
    }
}

#[test]
fn depth() {
    let mut tree = Tree::new();

    tree.insert(1);
    tree.insert(2);
    tree.insert(3);
    tree.insert(4);
    assert_eq!(4, tree.max_depth());
}

#[test]
fn empty_tree() {
    let tree = Tree::new();
    assert_eq!(0, tree.max_depth());
    assert!(!tree.contains(0));
    assert!(!tree.contains(u64::MAX));
}

#[test]
fn seeded_tree() {
    let tree = Tree::new_with(7);
    assert_eq!(1, tree.max_depth());
    assert!(tree.contains(7));
    assert!(!tree.contains(8));
}

#[test]
fn contains_after_each_insert() {
    let mut tree = Tree::new();
    for v in [3, 2, 4, 1, 5] {
        assert!(tree.insert(v));
        assert!(tree.contains(v));
    }
    for v in [3, 2, 4, 1, 5] {
        assert!(tree.contains(v));
    }
}

#[test]
fn duplicate_leaves_depth_unchanged() {
    let mut tree = Tree::new();
    tree.insert(3);
    tree.insert(2);
    tree.insert(4);
    let before = tree.max_depth();
    assert!(!tree.insert(3));
    assert_eq!(before, tree.max_depth());
    assert!(!tree.insert(4));
    assert_eq!(before, tree.max_depth());
}

#[test]
fn contains_is_repeatable() {
    let mut tree = Tree::new();
    tree.insert(10);
    tree.insert(20);
    for _ in 0..5 {
        assert!(tree.contains(10));
        assert!(tree.contains(20));
        assert!(!tree.contains(15));
    }
    assert_eq!(2, tree.max_depth());
}

#[test]
fn sorted_inserts_make_a_chain() {
    let mut tree = Tree::new();
    for v in 1..=10 {
        assert!(tree.insert(v));
        assert_eq!(v as usize, tree.max_depth());
    }
}

#[test]
fn balanced_inserts_stay_shallow() {
    let mut tree = Tree::new();
    for v in [4, 2, 6, 1, 3, 5, 7] {
        assert!(tree.insert(v));
    }
    assert_eq!(3, tree.max_depth());
}

#[test]
fn build_from_empty_sequence() {
    let tree = Tree::build_from_sequence(Vec::new());
    assert_eq!(0, tree.max_depth());
    assert!(!tree.contains(0));
    assert!(!tree.contains(42));
}

#[test]
fn build_drops_duplicates() {
    let tree = Tree::build_from_sequence(vec![5, 3, 5, 8, 3]);
    assert!(tree.contains(5));
    assert!(tree.contains(3));
    assert!(tree.contains(8));
    assert!(!tree.contains(4));
    assert_eq!(2, tree.max_depth());
}

#[test]
fn leaf_operations() {
    let slot = Leaf::new(5);
    let mut leaf = slot.expect("a fresh vertex is always produced");
    assert_eq!(1, leaf.max_depth());
    assert!(leaf.insert(3));
    assert!(leaf.insert(8));
    assert!(!leaf.insert(5));
    assert!(!leaf.insert(3));
    assert!(leaf.contains(3));
    assert!(leaf.contains(5));
    assert!(leaf.contains(8));
    assert!(!leaf.contains(4));
    assert_eq!(2, leaf.max_depth());
}
