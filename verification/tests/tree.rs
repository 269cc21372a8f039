use splay_tree::Node;
use splay_tree::SplayNode;
use splay_tree::SplayTree;
use splay_tree::Splayable;

fn build(keys: &[i32]) -> SplayTree<i32> {
    let mut tree = SplayTree::new();
    for k in keys {
        tree.insert(Node::new(*k));
    }
    tree
}

fn keys_of(t: &SplayNode<i32>) -> Vec<i32> {
    match t {
        None => Vec::new(),
        Some(n) => {
            let mut v = keys_of(&n.left);
            v.push(n.key);
            v.extend(keys_of(&n.right));
            v
        }
    }
}

fn is_sorted(v: &[i32]) -> bool {
    v.windows(2).all(|w| w[0] <= w[1])
}

fn root_key(tree: &SplayTree<i32>) -> i32 {
    tree.root.as_ref().unwrap().key
}

#[test]
fn insert_example() {
    let mut splay_tree = SplayTree::new();
    splay_tree.insert(Node::new(1));
    splay_tree.insert(Node::new(2));
    splay_tree.insert(Node::new(3));
    splay_tree.insert(Node::new(4));
    assert_eq!(splay_tree.root.as_ref().unwrap().key, 4);
}

#[test]
fn delete_example() {
    let mut splay_tree = SplayTree::new();
    splay_tree.insert(Node::new(5));
    splay_tree.insert(Node::new(10));
    splay_tree.insert(Node::new(15));
    splay_tree.insert(Node::new(0));
    splay_tree.delete(15);
    assert_ne!(splay_tree.root.as_ref().unwrap().key, 15);
}

#[test]
fn left_most() {
    let mut splay_tree = SplayTree::new();
    splay_tree.insert(Node::new(1));
    splay_tree.insert(Node::new(2));
    splay_tree.insert(Node::new(3));
    splay_tree.insert(Node::new(4));
    splay_tree.insert(Node::new(5));
    splay_tree.insert(Node::new(6));
    assert_eq!(splay_tree.pop_left_most().as_ref().unwrap().key, 1);
    assert_eq!(splay_tree.pop_left_most().as_ref().unwrap().key, 2);
    assert_eq!(splay_tree.pop_left_most().as_ref().unwrap().key, 3);
    assert_eq!(splay_tree.pop_left_most().as_ref().unwrap().key, 4);
}

#[test]
fn same_key() {
    let mut splay_tree = SplayTree::new();
    splay_tree.insert(Node::new(5));
    splay_tree.insert(Node::new(5));
    splay_tree.insert(Node::new(10));
    splay_tree.insert(Node::new(5));
    splay_tree.insert(Node::new(3));
    splay_tree.insert(Node::new(5));
    splay_tree.insert(Node::new(5));
    assert_eq!(splay_tree.pop_left_most().as_ref().unwrap().key, 3);
}

#[test]
fn splay_nearest() {
    let mut splay_tree = SplayTree::new();
    splay_tree.insert(Node::new(5));
    splay_tree.insert(Node::new(2));
    splay_tree.insert(Node::new(10));
    splay_tree.insert(Node::new(7));
    splay_tree.insert(Node::new(9));
    splay_tree.insert(Node::new(1));
    splay_tree.insert(Node::new(3));
    splay_tree.splay(8);
    assert_eq!(splay_tree.root.as_ref().unwrap().key, 9);
}

#[test]
fn into_iter() {
    let mut splay_tree = SplayTree::new();
    splay_tree.insert(Node::new(4));
    splay_tree.insert(Node::new(2));
    splay_tree.insert(Node::new(8));
    splay_tree.insert(Node::new(10));
    splay_tree.insert(Node::new(9));
    splay_tree.insert(Node::new(7));
    splay_tree.insert(Node::new(6));
    let ans = [2, 4, 6, 7, 8, 9, 10];
    let mut seen = 0;
    for (i, v) in splay_tree.into_iter().enumerate() {
        assert_eq!(v.as_ref().key, ans[i]);
        seen += 1;
    }
    assert_eq!(seen, ans.len());
}

#[test]
fn new_tree_is_empty() {
    let tree: SplayTree<i32> = SplayTree::new();
    assert!(tree.root.is_none());
}

#[test]
fn operations_on_empty_tree_do_nothing() {
    let mut tree: SplayTree<i32> = SplayTree::new();
    tree.splay(3);
    assert!(tree.root.is_none());
    tree.delete(3);
    assert!(tree.root.is_none());
    assert!(tree.pop_left_most().is_none());
    assert!(tree.into_nodes().is_empty());
}

#[test]
fn insert_into_empty_tree_makes_root() {
    let mut tree = SplayTree::new();
    tree.insert(Node::new(7));
    assert_eq!(root_key(&tree), 7);
    assert!(tree.root.as_ref().unwrap().left.is_none());
    assert!(tree.root.as_ref().unwrap().right.is_none());
}

#[test]
fn every_insert_brings_its_key_to_root() {
    let mut tree = SplayTree::new();
    for k in [8, 3, 11, 3, 1, 9, 8, 20, -4] {
        tree.insert(Node::new(k));
        assert_eq!(root_key(&tree), k);
        assert!(is_sorted(&keys_of(&tree.root)));
    }
    assert_eq!(keys_of(&tree.root), vec![-4, 1, 3, 3, 8, 8, 9, 11, 20]);
}

#[test]
fn order_holds_after_mixed_operations() {
    let mut tree = build(&[50, 20, 70, 10, 30, 60, 80, 20, 65]);
    assert!(is_sorted(&keys_of(&tree.root)));
    tree.splay(30);
    assert!(is_sorted(&keys_of(&tree.root)));
    tree.delete(70);
    assert!(is_sorted(&keys_of(&tree.root)));
    tree.splay(5);
    assert!(is_sorted(&keys_of(&tree.root)));
    tree.pop_left_most();
    assert!(is_sorted(&keys_of(&tree.root)));
    tree.delete(1000);
    assert!(is_sorted(&keys_of(&tree.root)));
    tree.insert(Node::new(55));
    assert_eq!(keys_of(&tree.root), vec![20, 20, 30, 50, 55, 60, 65, 80]);
}

#[test]
fn splay_present_key_brings_it_to_root() {
    let keys = [5, 2, 10, 7, 9, 1, 3];
    for k in keys {
        let mut tree = build(&keys);
        tree.splay(k);
        assert_eq!(root_key(&tree), k);
        assert_eq!(keys_of(&tree.root), vec![1, 2, 3, 5, 7, 9, 10]);
    }
}

#[test]
fn splay_splits_keys_around_root() {
    let mut tree = build(&[5, 2, 10, 7, 9, 1, 3]);
    tree.splay(7);
    let root = tree.root.as_ref().unwrap();
    assert_eq!(keys_of(&root.left), vec![1, 2, 3, 5]);
    assert_eq!(keys_of(&root.right), vec![9, 10]);
}

#[test]
fn splay_absent_key_brings_neighbour_to_root() {
    let keys = [5, 2, 10, 7, 9, 1, 3];
    let sorted = [1, 2, 3, 5, 7, 9, 10];
    for k in [0, 4, 6, 8, 11, -7, 100] {
        let mut tree = build(&keys);
        tree.splay(k);
        let r = root_key(&tree);
        let below = sorted.iter().copied().filter(|x| *x < k).max();
        let above = sorted.iter().copied().filter(|x| *x > k).min();
        assert!(Some(r) == below || Some(r) == above);
        assert_eq!(keys_of(&tree.root), sorted.to_vec());
    }
}

#[test]
fn splay_nearest_shape() {
    let mut tree = build(&[5, 2, 10, 7, 9, 1, 3]);
    tree.splay(8);
    let root = tree.root.as_ref().unwrap();
    assert_eq!(root.key, 9);
    let seven = root.left.as_ref().unwrap();
    assert_eq!(seven.key, 7);
    assert!(seven.right.is_none());
    let three = seven.left.as_ref().unwrap();
    assert_eq!(three.key, 3);
    assert_eq!(three.right.as_ref().unwrap().key, 5);
    let one = three.left.as_ref().unwrap();
    assert_eq!(one.key, 1);
    assert!(one.left.is_none());
    assert_eq!(one.right.as_ref().unwrap().key, 2);
    let ten = root.right.as_ref().unwrap();
    assert_eq!(ten.key, 10);
    assert!(ten.left.is_none() && ten.right.is_none());
}

#[test]
fn splay_absent_key_below_two_node_path() {
    let mut tree = SplayTree::new();
    tree.root = Some(Box::new(Node { left: None, right: Some(Node::new(20)), key: 10 }));
    tree.splay(30);
    assert_eq!(root_key(&tree), 20);
    assert_eq!(keys_of(&tree.root), vec![10, 20]);
    tree.splay(5);
    assert_eq!(root_key(&tree), 10);
    assert_eq!(keys_of(&tree.root), vec![10, 20]);
    tree.splay(15);
    assert_eq!(keys_of(&tree.root), vec![10, 20]);
    assert!(root_key(&tree) == 10 || root_key(&tree) == 20);
}

#[test]
fn delete_removes_one_key() {
    let mut tree = build(&[5, 10, 15, 0]);
    tree.delete(15);
    assert_eq!(keys_of(&tree.root), vec![0, 5, 10]);
    assert_eq!(root_key(&tree), 10);
    tree.delete(0);
    assert_eq!(keys_of(&tree.root), vec![5, 10]);
    tree.delete(5);
    tree.delete(10);
    assert!(tree.root.is_none());
}

#[test]
fn delete_root_without_left_subtree() {
    let mut tree = build(&[3, 2, 1]);
    assert_eq!(root_key(&tree), 1);
    tree.delete(1);
    assert_eq!(keys_of(&tree.root), vec![2, 3]);
}

#[test]
fn delete_absent_key_keeps_keys() {
    let mut tree = build(&[5, 10, 15, 0, 10]);
    tree.delete(7);
    assert_eq!(keys_of(&tree.root), vec![0, 5, 10, 10, 15]);
    tree.delete(-1);
    tree.delete(99);
    assert_eq!(keys_of(&tree.root), vec![0, 5, 10, 10, 15]);
}

#[test]
fn delete_then_insert_keeps_size() {
    let mut tree = build(&[6, 1, 9, 4, 2, 8]);
    let before = keys_of(&tree.root);
    tree.delete(4);
    assert_eq!(keys_of(&tree.root).len(), before.len() - 1);
    tree.insert(Node::new(4));
    assert_eq!(keys_of(&tree.root), before);
}

#[test]
fn delete_keeps_equal_keys_below_deleted_root() {
    let mut tree = build(&[5, 5, 3, 6]);
    assert_eq!(keys_of(&tree.root), vec![3, 5, 5, 6]);
    tree.delete(6);
    assert_eq!(keys_of(&tree.root), vec![3, 5, 5]);
    assert_eq!(root_key(&tree), 5);
    tree.insert(Node::new(6));
    assert_eq!(keys_of(&tree.root), vec![3, 5, 5, 6]);
}

#[test]
fn delete_takes_one_of_several_equal_keys() {
    let mut tree = build(&[5, 5, 10, 5, 3, 5, 5]);
    tree.delete(5);
    assert_eq!(keys_of(&tree.root), vec![3, 5, 5, 5, 5, 10]);
    tree.delete(10);
    assert_eq!(keys_of(&tree.root), vec![3, 5, 5, 5, 5]);
    tree.delete(5);
    tree.delete(5);
    assert_eq!(keys_of(&tree.root), vec![3, 5, 5]);
}

#[test]
fn join_hangs_right_subtree_below_equal_keys() {
    let five = Box::new(Node { left: Some(Node::new(3)), right: Some(Node::new(5)), key: 5 });
    let mut tree = SplayTree::new();
    tree.root = Some(Box::new(Node { left: Some(five), right: Some(Node::new(8)), key: 6 }));
    tree.delete(6);
    let root = tree.root.as_ref().unwrap();
    assert_eq!(root.key, 5);
    assert_eq!(root.left.as_ref().unwrap().key, 3);
    let equal = root.right.as_ref().unwrap();
    assert_eq!(equal.key, 5);
    assert_eq!(equal.right.as_ref().unwrap().key, 8);
    assert_eq!(keys_of(&tree.root), vec![3, 5, 5, 8]);
}

#[test]
fn pop_left_most_takes_one_node() {
    let mut tree = build(&[4, 2, 8, 6]);
    let popped = tree.pop_left_most().unwrap();
    assert_eq!(popped.key, 2);
    assert!(popped.left.is_none() && popped.right.is_none());
    assert_eq!(keys_of(&tree.root), vec![4, 6, 8]);
    assert_eq!(tree.pop_left_most().unwrap().key, 4);
    assert_eq!(tree.pop_left_most().unwrap().key, 6);
    assert_eq!(tree.pop_left_most().unwrap().key, 8);
    assert!(tree.pop_left_most().is_none());
    assert!(tree.root.is_none());
}

#[test]
fn pop_left_most_does_not_splay() {
    let mut tree = build(&[1, 2, 3]);
    assert_eq!(root_key(&tree), 3);
    tree.pop_left_most();
    assert_eq!(root_key(&tree), 3);
    assert_eq!(tree.root.as_ref().unwrap().left.as_ref().unwrap().key, 2);
}

#[test]
fn drain_yields_duplicates_in_order() {
    let tree = build(&[5, 5, 10, 5, 3, 5, 5]);
    let drained: Vec<i32> = tree.into_iter().map(|n| n.key).collect();
    assert_eq!(drained, vec![3, 5, 5, 5, 5, 5, 10]);
}

#[test]
fn drained_nodes_have_no_children() {
    let tree = build(&[2, 1, 3]);
    let nodes = tree.into_nodes();
    assert_eq!(nodes.len(), 3);
    for (i, n) in nodes.iter().enumerate() {
        assert_eq!(n.key, [1, 2, 3][i]);
        assert!(n.left.is_none() && n.right.is_none());
    }
}

#[test]
fn other_key_types() {
    let mut small: SplayTree<u8> = SplayTree::new();
    for k in [200u8, 0, 255, 17] {
        small.insert(Node::new(k));
    }
    small.splay(18);
    assert_eq!(small.root.as_ref().unwrap().key, 200);
    let mut wide: SplayTree<i64> = SplayTree::new();
    for k in [i64::MAX, i64::MIN, 0] {
        wide.insert(Node::new(k));
    }
    wide.delete(0);
    assert_eq!(wide.pop_left_most().unwrap().key, i64::MIN);
    assert_eq!(wide.pop_left_most().unwrap().key, i64::MAX);
}

#[test]
fn for_loop_drains_in_order() {
    let tree = build(&[9, 1, 5]);
    let mut seen = Vec::new();
    for n in tree {
        seen.push(n.key);
    }
    assert_eq!(seen, vec![1, 5, 9]);
}

#[test]
fn zig_zag_left_after_a_step_to_the_right_keeps_order() {
    let twenty = Box::new(Node { left: Some(Node::new(15)), right: Some(Node::new(30)), key: 20 });
    let forty = Box::new(Node { left: Some(twenty), right: None, key: 40 });
    let fifty = Box::new(Node { left: Some(forty), right: None, key: 50 });
    let mut tree = SplayTree::new();
    tree.root = Some(Box::new(Node { left: None, right: Some(fifty), key: 10 }));
    tree.splay(30);
    assert_eq!(root_key(&tree), 30);
    assert_eq!(keys_of(&tree.root), vec![10, 15, 20, 30, 40, 50]);
    let root = tree.root.as_ref().unwrap();
    assert_eq!(keys_of(&root.left), vec![10, 15, 20]);
    assert_eq!(keys_of(&root.right), vec![40, 50]);
    assert_eq!(root.left.as_ref().unwrap().key, 10);
    assert_eq!(root.left.as_ref().unwrap().right.as_ref().unwrap().key, 20);
    assert_eq!(root.right.as_ref().unwrap().key, 50);
    assert_eq!(root.right.as_ref().unwrap().left.as_ref().unwrap().key, 40);
}

#[test]
fn zig_zig_steps_rotate_the_nodes_passed() {
    let mut tree = SplayTree::new();
    let three = Box::new(Node { left: None, right: Some(Node::new(4)), key: 3 });
    let two = Box::new(Node { left: None, right: Some(three), key: 2 });
    tree.root = Some(Box::new(Node { left: None, right: Some(two), key: 1 }));
    tree.splay(4);
    let root = tree.root.as_ref().unwrap();
    assert_eq!(root.key, 4);
    let left = root.left.as_ref().unwrap();
    assert_eq!(left.key, 2);
    assert_eq!(left.left.as_ref().unwrap().key, 1);
    assert_eq!(left.right.as_ref().unwrap().key, 3);
    assert!(root.right.is_none());
}

#[test]
fn double_step_without_second_node_ends_at_child() {
    for (key, root_after) in [(0, 1), (3, 1), (7, 9), (12, 9)] {
        let mut tree = SplayTree::new();
        tree.root = Some(Box::new(Node { left: Some(Node::new(1)), right: Some(Node::new(9)), key: 5 }));
        tree.splay(key);
        assert_eq!(root_key(&tree), root_after);
        assert_eq!(keys_of(&tree.root), vec![1, 5, 9]);
    }
    let mut tree = SplayTree::new();
    tree.root = Some(Box::new(Node { left: Some(Node::new(1)), right: Some(Node::new(9)), key: 5 }));
    tree.splay(7);
    let root = tree.root.as_ref().unwrap();
    assert_eq!(root.key, 9);
    assert!(root.right.is_none());
    let five = root.left.as_ref().unwrap();
    assert_eq!(five.key, 5);
    assert!(five.right.is_none());
    assert_eq!(five.left.as_ref().unwrap().key, 1);
}

#[test]
fn cloned_tree_is_independent() {
    let mut tree = build(&[4, 2, 8]);
    let copy = tree.clone();
    tree.delete(2);
    assert_eq!(keys_of(&tree.root), vec![4, 8]);
    assert_eq!(keys_of(&copy.root), vec![2, 4, 8]);
    assert_eq!(root_key(&copy), 8);
}
