use splay_tree::splay::splay_case;
use splay_tree::splay::SplayCase;
use splay_tree::Node;
use splay_tree::SplayNode;

fn node(left: SplayNode<i32>, key: i32, right: SplayNode<i32>) -> Box<Node<i32>> {
    Box::new(Node { left, right, key })
}

fn inorder(t: &SplayNode<i32>) -> Vec<i32> {
    match t {
        None => Vec::new(),
        Some(n) => {
            let mut v = inorder(&n.left);
            v.push(n.key);
            v.extend(inorder(&n.right));
            v
        }
    }
}

#[test]
fn new_node_has_no_children() {
    let n = Node::new(42);
    assert_eq!(n.key, 42);
    assert!(n.left.is_none());
    assert!(n.right.is_none());
}

#[test]
fn insert_left_most_goes_to_end_of_left_spine() {
    let mut n = node(Some(node(None, 3, Some(Node::new(4)))), 5, Some(Node::new(9)));
    n.insert_left_most(Some(node(None, 1, Some(Node::new(2)))));
    assert_eq!(inorder(&Some(n)), vec![1, 2, 3, 4, 5, 9]);
}

#[test]
fn insert_left_most_attaches_below_deepest_left_node() {
    let mut n = node(Some(Node::new(3)), 5, None);
    n.insert_left_most(Some(Node::new(1)));
    assert_eq!(n.left.as_ref().unwrap().key, 3);
    assert_eq!(n.left.as_ref().unwrap().left.as_ref().unwrap().key, 1);
}

#[test]
fn insert_right_most_goes_to_end_of_right_spine() {
    let mut n = node(Some(Node::new(1)), 5, Some(node(Some(Node::new(6)), 7, None)));
    n.insert_right_most(Some(node(Some(Node::new(8)), 9, None)));
    assert_eq!(inorder(&Some(n)), vec![1, 5, 6, 7, 8, 9]);
}

#[test]
fn insert_right_most_attaches_below_deepest_right_node() {
    let mut n = node(None, 5, Some(Node::new(7)));
    n.insert_right_most(Some(Node::new(9)));
    assert_eq!(n.right.as_ref().unwrap().key, 7);
    assert_eq!(n.right.as_ref().unwrap().right.as_ref().unwrap().key, 9);
}

#[test]
fn inserting_nothing_changes_nothing() {
    let mut n = node(Some(Node::new(1)), 5, Some(Node::new(7)));
    n.insert_left_most(None);
    n.insert_right_most(None);
    assert_eq!(inorder(&Some(n)), vec![1, 5, 7]);
}

#[test]
fn left_and_right_most_keys() {
    let n = node(
        Some(node(Some(Node::new(1)), 3, Some(Node::new(4)))),
        5,
        Some(node(Some(Node::new(6)), 7, Some(Node::new(8)))),
    );
    assert_eq!(n.left_most_key(), 1);
    assert_eq!(n.right_most_key(), 8);
    assert_eq!(Node::new(11).left_most_key(), 11);
    assert_eq!(Node::new(11).right_most_key(), 11);
}

#[test]
fn bstinsert_goes_left_and_right() {
    let mut n = Node::new(5);
    n.bstinsert(Node::new(2));
    n.bstinsert(Node::new(8));
    n.bstinsert(Node::new(1));
    n.bstinsert(Node::new(3));
    n.bstinsert(Node::new(9));
    assert_eq!(n.left.as_ref().unwrap().key, 2);
    assert_eq!(n.right.as_ref().unwrap().key, 8);
    assert_eq!(n.left.as_ref().unwrap().left.as_ref().unwrap().key, 1);
    assert_eq!(n.left.as_ref().unwrap().right.as_ref().unwrap().key, 3);
    assert_eq!(n.right.as_ref().unwrap().right.as_ref().unwrap().key, 9);
    assert_eq!(inorder(&Some(n)), vec![1, 2, 3, 5, 8, 9]);
}

#[test]
fn bstinsert_equal_key_becomes_left_child() {
    let mut n = node(Some(Node::new(2)), 5, Some(Node::new(8)));
    n.bstinsert(Node::new(5));
    let spliced = n.left.as_ref().unwrap();
    assert_eq!(spliced.key, 5);
    assert_eq!(spliced.left.as_ref().unwrap().key, 2);
    assert!(spliced.right.is_none());
    assert_eq!(n.right.as_ref().unwrap().key, 8);
    assert_eq!(inorder(&Some(n)), vec![2, 5, 5, 8]);
}

#[test]
fn splay_case_merge() {
    let n = node(Some(Node::new(1)), 5, Some(Node::new(9)));
    assert_eq!(splay_case(&n, &5), SplayCase::Merge);
    assert_eq!(splay_case(&Node::new(5), &7), SplayCase::Merge);
    assert_eq!(splay_case(&Node::new(5), &3), SplayCase::Merge);
}

#[test]
fn splay_case_single_steps() {
    let n = node(Some(Node::new(1)), 5, Some(Node::new(9)));
    assert_eq!(splay_case(&n, &1), SplayCase::LeftRotate);
    assert_eq!(splay_case(&n, &9), SplayCase::RightRotate);
}

#[test]
fn splay_case_goes_by_the_key_of_the_child() {
    let n = node(Some(Node::new(1)), 5, Some(Node::new(9)));
    assert_eq!(splay_case(&n, &0), SplayCase::ZigZigLeft);
    assert_eq!(splay_case(&n, &3), SplayCase::ZigZagLeft);
    assert_eq!(splay_case(&n, &7), SplayCase::ZigZagRight);
    assert_eq!(splay_case(&n, &12), SplayCase::ZigZigRight);
    let m = node(None, 1, Some(Node::new(3)));
    assert_eq!(splay_case(&m, &2), SplayCase::ZigZagRight);
    assert_eq!(splay_case(&m, &3), SplayCase::RightRotate);
    assert_eq!(splay_case(&m, &4), SplayCase::ZigZigRight);
    assert_eq!(splay_case(&m, &0), SplayCase::Merge);
}

#[test]
fn splay_case_double_steps() {
    let n = node(
        Some(node(Some(Node::new(1)), 3, Some(Node::new(4)))),
        5,
        Some(node(Some(Node::new(6)), 7, Some(Node::new(8)))),
    );
    assert_eq!(splay_case(&n, &1), SplayCase::ZigZigLeft);
    assert_eq!(splay_case(&n, &0), SplayCase::ZigZigLeft);
    assert_eq!(splay_case(&n, &4), SplayCase::ZigZagLeft);
    assert_eq!(splay_case(&n, &6), SplayCase::ZigZagRight);
    assert_eq!(splay_case(&n, &8), SplayCase::ZigZigRight);
    assert_eq!(splay_case(&n, &100), SplayCase::ZigZigRight);
    assert_eq!(splay_case(&n, &3), SplayCase::LeftRotate);
    assert_eq!(splay_case(&n, &7), SplayCase::RightRotate);
}

#[test]
fn same_as_compares_keys_and_shape() {
    let a = node(Some(Node::new(1)), 5, Some(Node::new(9)));
    let b = node(Some(Node::new(1)), 5, Some(Node::new(9)));
    assert!(a.same_as(&b));
    let other_key = node(Some(Node::new(2)), 5, Some(Node::new(9)));
    assert!(!a.same_as(&other_key));
    let other_shape = node(None, 1, Some(node(None, 5, Some(Node::new(9)))));
    assert!(!a.same_as(&other_shape));
    let missing_child = node(Some(Node::new(1)), 5, None);
    assert!(!a.same_as(&missing_child));
    assert!(!missing_child.same_as(&a));
}

#[test]
fn clone_copies_the_whole_subtree() {
    let a = node(Some(node(None, 1, Some(Node::new(2)))), 5, Some(Node::new(9)));
    let b = a.clone();
    assert!(a.same_as(&b));
    assert_eq!(inorder(&Some(b)), vec![1, 2, 5, 9]);
    assert_eq!(inorder(&Some(a)), vec![1, 2, 5, 9]);
}
