//! The top-down splay: how one step is chosen, what it does to the three
//! trees in hand, and the tree that comes out at the end.

use crate::node::graft_left;
use crate::node::graft_right;
use crate::node::inorder;
use crate::node::lemma_graft_left_inorder;
use crate::node::lemma_graft_right_inorder;
use crate::node::Node;
use crate::node::SplayNode;
use crate::order::key_eq;
use crate::order::key_lt;
use crate::order::lemma_trichotomy;
use crate::order::lt;
use crate::order::total_order;
use vstd::prelude::*;

verus! {

/// The step that the splay takes at a node.
#[derive(Clone, Copy, Debug, PartialEq, Eq, Structural)]
pub enum SplayCase {
    /// The search ends here: the node becomes the root.
    Merge,
    /// One step down to the left child.
    LeftRotate,
    /// One step down to the right child.
    RightRotate,
    /// Two steps down to the left, with a rotation between the two nodes passed.
    ZigZigLeft,
    /// Two steps down to the right, with a rotation between the two nodes passed.
    ZigZigRight,
    /// A step down to the left child, then one to its right child.
    ZigZagLeft,
    /// A step down to the right child, then one to its left child.
    ZigZagRight,
}

/// The step to take at `node` in a splay for `key`.
///
/// The search ends at `node` where it holds `key`, or where it has no child on
/// the side on which `key` lies. Otherwise the key of the child on that side
/// decides: a single step where the child holds `key`, a zig-zig where `key`
/// lies further on from the child on the same side, a zig-zag where it lies
/// back between the two.
pub open spec fn case_of<K: Ord + Clone>(node: Node<K>, key: K) -> SplayCase {
    if node.key == key {
        SplayCase::Merge
    } else if lt(node.key, key) {
        match node.right {
            None => SplayCase::Merge,
            Some(child) => if child.key == key {
                SplayCase::RightRotate
            } else if lt(key, child.key) {
                SplayCase::ZigZagRight
            } else {
                SplayCase::ZigZigRight
            },
        }
    } else {
        match node.left {
            None => SplayCase::Merge,
            Some(child) => if child.key == key {
                SplayCase::LeftRotate
            } else if lt(key, child.key) {
                SplayCase::ZigZigLeft
            } else {
                SplayCase::ZigZagLeft
            },
        }
    }
}

/// Chooses the step to take at `node` in a splay for `key`. Every node falls
/// under one of the seven cases.
pub fn splay_case<K: Ord + Clone>(node: &Node<K>, key: &K) -> (c: SplayCase)
    requires
        total_order::<K>(),
    ensures
        c == case_of(*node, *key),
{
    if key_eq(&node.key, key) {
        SplayCase::Merge
    } else if key_lt(&node.key, key) {
        match &node.right {
            None => SplayCase::Merge,
            Some(child) => {
                if key_eq(&child.key, key) {
                    SplayCase::RightRotate
                } else if key_lt(key, &child.key) {
                    SplayCase::ZigZagRight
                } else {
                    SplayCase::ZigZigRight
                }
            },
        }
    } else {
        match &node.left {
            None => SplayCase::Merge,
            Some(child) => {
                if key_eq(&child.key, key) {
                    SplayCase::LeftRotate
                } else if key_lt(key, &child.key) {
                    SplayCase::ZigZigLeft
                } else {
                    SplayCase::ZigZagLeft
                }
            },
        }
    }
}

/// The splay goes on from `node` with one step to its left child: the case is
/// the single step, or a double step whose second node is missing.
pub open spec fn steps_left_once<K: Ord + Clone>(node: Node<K>, key: K) -> bool {
    match case_of(node, key) {
        SplayCase::LeftRotate => true,
        SplayCase::ZigZigLeft => node.left.unwrap().left is None,
        SplayCase::ZigZagLeft => node.left.unwrap().right is None,
        _ => false,
    }
}

/// The splay goes on from `node` with one step to its right child: the case
/// is the single step, or a double step whose second node is missing.
pub open spec fn steps_right_once<K: Ord + Clone>(node: Node<K>, key: K) -> bool {
    match case_of(node, key) {
        SplayCase::RightRotate => true,
        SplayCase::ZigZigRight => node.right.unwrap().right is None,
        SplayCase::ZigZagRight => node.right.unwrap().left is None,
        _ => false,
    }
}

/// A subtree made of one node and its two subtrees.
pub open spec fn subtree<K>(left: SplayNode<K>, key: K, right: SplayNode<K>) -> SplayNode<K> {
    Some(Box::new(Node { left, right, key }))
}

/// The tree that a splay for `key` ends with, from the three trees that it
/// has in hand: `left`, whose keys lie before those of `node`; `node`, the
/// subtree still to be searched; and `right`, whose keys lie after.
///
/// Each step moves the nodes that the search passes to the right-most place of
/// `left` or to the left-most place of `right`. Where the search ends, the
/// node found becomes the root, over `left` and `right`, which take its
/// former subtrees. A double step goes on from the child's child; where there
/// is none, only the step to the child is taken, and the search ends there.
pub open spec fn splay_from<K: Ord + Clone>(
    left: SplayNode<K>,
    node: Node<K>,
    right: SplayNode<K>,
    key: K,
) -> Node<K>
    decreases node,
{
    if case_of(node, key) == SplayCase::Merge {
        Node {
            left: graft_right(left, node.left),
            right: graft_left(right, node.right),
            key: node.key,
        }
    } else if steps_left_once(node, key) {
        let child = node.left.unwrap();
        splay_from(left, *child, graft_left(right, subtree(None, node.key, node.right)), key)
    } else if steps_right_once(node, key) {
        let child = node.right.unwrap();
        splay_from(graft_right(left, subtree(node.left, node.key, None)), *child, right, key)
    } else {
        match case_of(node, key) {
            SplayCase::ZigZigLeft => {
                let child = node.left.unwrap();
                let grandchild = child.left.unwrap();
                let rotated = subtree(None, child.key, subtree(child.right, node.key, node.right));
                splay_from(left, *grandchild, graft_left(right, rotated), key)
            },
            SplayCase::ZigZigRight => {
                let child = node.right.unwrap();
                let grandchild = child.right.unwrap();
                let rotated = subtree(subtree(node.left, node.key, child.left), child.key, None);
                splay_from(graft_right(left, rotated), *grandchild, right, key)
            },
            SplayCase::ZigZagLeft => {
                let child = node.left.unwrap();
                let grandchild = child.right.unwrap();
                splay_from(
                    graft_right(left, subtree(child.left, child.key, None)),
                    *grandchild,
                    graft_left(right, subtree(None, node.key, node.right)),
                    key,
                )
            },
            // what is left is the zig-zag to the right
            _ => {
                let child = node.right.unwrap();
                let grandchild = child.left.unwrap();
                splay_from(
                    graft_right(left, subtree(node.left, node.key, None)),
                    *grandchild,
                    graft_left(right, subtree(None, child.key, child.right)),
                    key,
                )
            },
        }
    }
}

/// The keys of a subtree made of one node and its two subtrees.
pub proof fn lemma_tree_inorder<K>(left: SplayNode<K>, key: K, right: SplayNode<K>)
    ensures
        inorder(subtree(left, key, right)) == inorder(left).push(key) + inorder(right),
{
}

/// The splay from these three trees ends with the node at the root at which
/// the search for `key` in `node` ends, the keys before that node in its left
/// subtree and the keys after it in its right subtree, all in their former
/// order.
pub open spec fn splay_from_finds<K: Ord + Clone>(
    left: SplayNode<K>,
    node: Node<K>,
    right: SplayNode<K>,
    key: K,
) -> bool {
    let t = splay_from(left, node, right, key);
    let i = node.search_index(key);
    &&& 0 <= i < node@.len()
    &&& t.key == node@[i]
    &&& inorder(t.left) == inorder(left) + node@.take(i)
    &&& inorder(t.right) == node@.skip(i + 1) + inorder(right)
}

/// Cutting a sequence at a place inside its middle part `m`.
proof fn lemma_window<K>(l: Seq<K>, a: Seq<K>, m: Seq<K>, b: Seq<K>, r: Seq<K>, j: int)
    requires
        0 <= j < m.len(),
    ensures
        l + (a + m + b).take(a.len() + j) == (l + a) + m.take(j),
        (a + m + b).skip(a.len() + j + 1) + r == m.skip(j + 1) + (b + r),
        (a + m + b)[a.len() + j] == m[j],
{
    assert(l + (a + m + b).take(a.len() + j) =~= (l + a) + m.take(j));
    assert((a + m + b).skip(a.len() + j + 1) + r =~= m.skip(j + 1) + (b + r));
}

proof fn lemma_merge_finds<K: Ord + Clone>(
    left: SplayNode<K>,
    node: Node<K>,
    right: SplayNode<K>,
    key: K,
)
    requires
        total_order::<K>(),
        case_of(node, key) == SplayCase::Merge,
    ensures
        splay_from_finds(left, node, right, key),
{
    let i = node.search_index(key);
    lemma_trichotomy(key, node.key);
    lemma_graft_right_inorder(left, node.left);
    lemma_graft_left_inorder(right, node.right);
    assert(node@.take(i) =~= inorder(node.left));
    assert(node@.skip(i + 1) =~= inorder(node.right));
}

proof fn lemma_single_left_finds<K: Ord + Clone>(
    left: SplayNode<K>,
    node: Node<K>,
    right: SplayNode<K>,
    key: K,
)
    requires
        total_order::<K>(),
        steps_left_once(node, key),
        splay_from_finds(
            left,
            *node.left.unwrap(),
            graft_left(right, subtree(None, node.key, node.right)),
            key,
        ),
    ensures
        splay_from_finds(left, node, right, key),
{
    let child = node.left.unwrap();
    let empty = Seq::<K>::empty();
    assert(inorder::<K>(None) == empty);
    let b = empty.push(node.key) + inorder(node.right);
    lemma_trichotomy(key, node.key);
    lemma_graft_left_inorder(right, subtree(None, node.key, node.right));
    lemma_window(inorder(left), empty, child@, b, inorder(right), child.search_index(key));
    assert(node@ =~= empty + child@ + b);
    assert(inorder(left) + empty =~= inorder(left));
}

proof fn lemma_single_right_finds<K: Ord + Clone>(
    left: SplayNode<K>,
    node: Node<K>,
    right: SplayNode<K>,
    key: K,
)
    requires
        total_order::<K>(),
        steps_right_once(node, key),
        splay_from_finds(
            graft_right(left, subtree(node.left, node.key, None)),
            *node.right.unwrap(),
            right,
            key,
        ),
    ensures
        splay_from_finds(left, node, right, key),
{
    let child = node.right.unwrap();
    let empty = Seq::<K>::empty();
    assert(inorder::<K>(None) == empty);
    let a = inorder(node.left).push(node.key) + empty;
    lemma_trichotomy(key, node.key);
    lemma_graft_right_inorder(left, subtree(node.left, node.key, None));
    lemma_window(inorder(left), a, child@, empty, inorder(right), child.search_index(key));
    assert(node@ =~= a + child@ + empty);
    assert(empty + inorder(right) =~= inorder(right));
}

proof fn lemma_zig_zig_left_finds<K: Ord + Clone>(
    left: SplayNode<K>,
    node: Node<K>,
    right: SplayNode<K>,
    key: K,
)
    requires
        total_order::<K>(),
        case_of(node, key) == SplayCase::ZigZigLeft,
        !steps_left_once(node, key),
        splay_from_finds(
            left,
            *node.left.unwrap().left.unwrap(),
            graft_left(
                right,
                subtree(
                    None,
                    node.left.unwrap().key,
                    subtree(node.left.unwrap().right, node.key, node.right),
                ),
            ),
            key,
        ),
    ensures
        splay_from_finds(left, node, right, key),
{
    let child = node.left.unwrap();
    let grandchild = child.left.unwrap();
    let empty = Seq::<K>::empty();
    assert(inorder::<K>(None) == empty);
    let inner = subtree(child.right, node.key, node.right);
    let b = empty.push(child.key) + (inorder(child.right).push(node.key) + inorder(node.right));
    lemma_trichotomy(key, node.key);
    lemma_trichotomy(key, child.key);
    lemma_tree_inorder(child.right, node.key, node.right);
    lemma_tree_inorder(None, child.key, inner);
    lemma_graft_left_inorder(right, subtree(None, child.key, inner));
    lemma_window(inorder(left), empty, grandchild@, b, inorder(right), grandchild.search_index(key));
    assert(child.search_index(key) == grandchild.search_index(key));
    assert(child@ =~= grandchild@.push(child.key) + inorder(child.right));
    assert(node@ =~= empty + grandchild@ + b);
    assert(inorder(left) + empty =~= inorder(left));
}

proof fn lemma_zig_zig_right_finds<K: Ord + Clone>(
    left: SplayNode<K>,
    node: Node<K>,
    right: SplayNode<K>,
    key: K,
)
    requires
        total_order::<K>(),
        case_of(node, key) == SplayCase::ZigZigRight,
        !steps_right_once(node, key),
        splay_from_finds(
            graft_right(
                left,
                subtree(
                    subtree(node.left, node.key, node.right.unwrap().left),
                    node.right.unwrap().key,
                    None,
                ),
            ),
            *node.right.unwrap().right.unwrap(),
            right,
            key,
        ),
    ensures
        splay_from_finds(left, node, right, key),
{
    let child = node.right.unwrap();
    let grandchild = child.right.unwrap();
    let empty = Seq::<K>::empty();
    assert(inorder::<K>(None) == empty);
    let inner = subtree(node.left, node.key, child.left);
    let a = (inorder(node.left).push(node.key) + inorder(child.left)).push(child.key) + empty;
    lemma_trichotomy(key, node.key);
    lemma_trichotomy(key, child.key);
    lemma_tree_inorder(node.left, node.key, child.left);
    lemma_tree_inorder(inner, child.key, None);
    lemma_graft_right_inorder(left, subtree(inner, child.key, None));
    lemma_window(inorder(left), a, grandchild@, empty, inorder(right), grandchild.search_index(key));
    assert(child.search_index(key) == inorder(child.left).len() + 1 + grandchild.search_index(
        key,
    ));
    assert(child@ =~= inorder(child.left).push(child.key) + grandchild@);
    assert(node@ =~= a + grandchild@ + empty);
    assert(empty + inorder(right) =~= inorder(right));
}

proof fn lemma_zig_zag_left_finds<K: Ord + Clone>(
    left: SplayNode<K>,
    node: Node<K>,
    right: SplayNode<K>,
    key: K,
)
    requires
        total_order::<K>(),
        case_of(node, key) == SplayCase::ZigZagLeft,
        !steps_left_once(node, key),
        splay_from_finds(
            graft_right(left, subtree(node.left.unwrap().left, node.left.unwrap().key, None)),
            *node.left.unwrap().right.unwrap(),
            graft_left(right, subtree(None, node.key, node.right)),
            key,
        ),
    ensures
        splay_from_finds(left, node, right, key),
{
    let child = node.left.unwrap();
    let grandchild = child.right.unwrap();
    let empty = Seq::<K>::empty();
    assert(inorder::<K>(None) == empty);
    let a = inorder(child.left).push(child.key) + empty;
    let b = empty.push(node.key) + inorder(node.right);
    lemma_trichotomy(key, node.key);
    lemma_trichotomy(key, child.key);
    lemma_graft_right_inorder(left, subtree(child.left, child.key, None));
    lemma_graft_left_inorder(right, subtree(None, node.key, node.right));
    lemma_window(inorder(left), a, grandchild@, b, inorder(right), grandchild.search_index(key));
    assert(child.search_index(key) == inorder(child.left).len() + 1 + grandchild.search_index(
        key,
    ));
    assert(child@ =~= inorder(child.left).push(child.key) + grandchild@);
    assert(node@ =~= a + grandchild@ + b);
}

proof fn lemma_zig_zag_right_finds<K: Ord + Clone>(
    left: SplayNode<K>,
    node: Node<K>,
    right: SplayNode<K>,
    key: K,
)
    requires
        total_order::<K>(),
        case_of(node, key) == SplayCase::ZigZagRight,
        !steps_right_once(node, key),
        splay_from_finds(
            graft_right(left, subtree(node.left, node.key, None)),
            *node.right.unwrap().left.unwrap(),
            graft_left(right, subtree(None, node.right.unwrap().key, node.right.unwrap().right)),
            key,
        ),
    ensures
        splay_from_finds(left, node, right, key),
{
    let child = node.right.unwrap();
    let grandchild = child.left.unwrap();
    let empty = Seq::<K>::empty();
    assert(inorder::<K>(None) == empty);
    let a = inorder(node.left).push(node.key) + empty;
    let b = empty.push(child.key) + inorder(child.right);
    lemma_trichotomy(key, node.key);
    lemma_trichotomy(key, child.key);
    lemma_graft_right_inorder(left, subtree(node.left, node.key, None));
    lemma_graft_left_inorder(right, subtree(None, child.key, child.right));
    lemma_window(inorder(left), a, grandchild@, b, inorder(right), grandchild.search_index(key));
    assert(child.search_index(key) == grandchild.search_index(key));
    assert(child@ =~= grandchild@.push(child.key) + inorder(child.right));
    assert(node@ =~= a + grandchild@ + b);
}

/// A splay keeps the in-order sequence of the keys and brings to the root the
/// node at which the search for `key` ends: what came before that node is in
/// the root's left subtree, what came after it in the right one.
pub proof fn lemma_splay_from<K: Ord + Clone>(
    left: SplayNode<K>,
    node: Node<K>,
    right: SplayNode<K>,
    key: K,
)
    requires
        total_order::<K>(),
    ensures
        splay_from_finds(left, node, right, key),
    decreases node,
{
    if case_of(node, key) == SplayCase::Merge {
        lemma_merge_finds(left, node, right, key);
    } else if steps_left_once(node, key) {
        let child = node.left.unwrap();
        lemma_splay_from(
            left,
            *child,
            graft_left(right, subtree(None, node.key, node.right)),
            key,
        );
        lemma_single_left_finds(left, node, right, key);
    } else if steps_right_once(node, key) {
        let child = node.right.unwrap();
        lemma_splay_from(
            graft_right(left, subtree(node.left, node.key, None)),
            *child,
            right,
            key,
        );
        lemma_single_right_finds(left, node, right, key);
    } else {
        match case_of(node, key) {
            SplayCase::ZigZigLeft => {
                let child = node.left.unwrap();
                let grandchild = child.left.unwrap();
                let rotated = subtree(None, child.key, subtree(child.right, node.key, node.right));
                lemma_splay_from(left, *grandchild, graft_left(right, rotated), key);
                lemma_zig_zig_left_finds(left, node, right, key);
            },
            SplayCase::ZigZigRight => {
                let child = node.right.unwrap();
                let grandchild = child.right.unwrap();
                let rotated = subtree(subtree(node.left, node.key, child.left), child.key, None);
                lemma_splay_from(graft_right(left, rotated), *grandchild, right, key);
                lemma_zig_zig_right_finds(left, node, right, key);
            },
            SplayCase::ZigZagLeft => {
                let child = node.left.unwrap();
                let grandchild = child.right.unwrap();
                lemma_splay_from(
                    graft_right(left, subtree(child.left, child.key, None)),
                    *grandchild,
                    graft_left(right, subtree(None, node.key, node.right)),
                    key,
                );
                lemma_zig_zag_left_finds(left, node, right, key);
            },
            // what is left is the zig-zag to the right
            _ => {
                let child = node.right.unwrap();
                let grandchild = child.left.unwrap();
                lemma_splay_from(
                    graft_right(left, subtree(node.left, node.key, None)),
                    *grandchild,
                    graft_left(right, subtree(None, child.key, child.right)),
                    key,
                );
                lemma_zig_zag_right_finds(left, node, right, key);
            },
        }
    }
}

/// A splay of a whole tree keeps the in-order sequence of its keys and brings
/// to the root the node at which the search for `key` ends.
pub proof fn lemma_splay_whole<K: Ord + Clone>(start: Node<K>, key: K)
    requires
        total_order::<K>(),
    ensures
        ({
            let t = splay_from(None, start, None, key);
            let i = start.search_index(key);
            &&& 0 <= i < start@.len()
            &&& t@ == start@
            &&& t.key == start@[i]
            &&& inorder(t.left) == start@.take(i)
            &&& inorder(t.right) == start@.skip(i + 1)
        }),
{
    let t = splay_from(None, start, None, key);
    let i = start.search_index(key);
    let empty = Seq::<K>::empty();
    lemma_splay_from(None, start, None, key);
    assert(inorder::<K>(None) == empty);
    assert(empty + start@.take(i) =~= start@.take(i));
    assert(start@.skip(i + 1) + empty =~= start@.skip(i + 1));
    assert(t@ =~= start@);
}

/// The tree that a splay for `key` makes of `t`.
pub open spec fn splayed<K: Ord + Clone>(t: SplayNode<K>, key: K) -> SplayNode<K> {
    match t {
        None => None,
        Some(root) => Some(Box::new(splay_from(None, *root, None, key))),
    }
}

} // verus!
