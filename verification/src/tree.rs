//! The splay tree and its operations.

use crate::node::graft_left;
use crate::node::graft_right;
use crate::node::inorder;
use crate::node::lemma_graft_right_inorder;
use crate::node::lemma_view_multiset;
use crate::node::Node;
use crate::node::SplayNode;
use crate::order::key_copy;
use crate::order::key_eq;
use crate::order::le;
use crate::order::sorted;
use crate::order::total_order;
use crate::search::is_predecessor;
use crate::search::is_successor;
use crate::search::lemma_search_ends_at_neighbour;
use crate::search::lemma_search_finds_present;
use crate::splay::lemma_splay_whole;
use crate::splay::splay_case;
use crate::splay::splay_from;
use crate::splay::splayed;
use crate::splay::subtree;
use crate::splay::SplayCase;
use vstd::multiset::Multiset;
use vstd::prelude::*;
use vstd::std_specs::vec::into_iter_elts;

verus! {

/// Something that can be restructured around a key.
pub trait Splayable<K: Ord + Clone> {
    /// Brings the node at which a search for `key` ends to the top.
    fn splay(&mut self, key: K)
        requires
            total_order::<K>(),
    ;
}

/// A splay tree: an optional root node that owns the whole tree.
#[derive(Clone, Debug)]
pub struct SplayTree<K> {
    pub root: SplayNode<K>,
}

impl<K> View for SplayTree<K> {
    type V = Seq<K>;

    /// The keys of the tree in in-order.
    open spec fn view(&self) -> Seq<K> {
        inorder(self.root)
    }
}

/// `tree` with `sub` hung at its left-most place.
fn graft_left_most<K: Ord + Clone>(tree: SplayNode<K>, sub: SplayNode<K>) -> (grafted: SplayNode<K>)
    ensures
        grafted == graft_left(tree, sub),
{
    match tree {
        None => sub,
        Some(mut top) => {
            (&mut *top).insert_left_most(sub);
            Some(top)
        },
    }
}

/// `tree` with `sub` hung at its right-most place.
fn graft_right_most<K: Ord + Clone>(tree: SplayNode<K>, sub: SplayNode<K>) -> (grafted: SplayNode<
    K,
>)
    ensures
        grafted == graft_right(tree, sub),
{
    match tree {
        None => sub,
        Some(mut top) => {
            (&mut *top).insert_right_most(sub);
            Some(top)
        },
    }
}

/// The tree that `insert` makes of `t` and the node `new`: `new` alone where
/// `t` is empty; otherwise `new` is put in by binary-search-tree insertion and
/// the tree is splayed for its key.
pub open spec fn tree_inserted<K: Ord + Clone>(t: SplayNode<K>, new: Node<K>) -> SplayNode<K> {
    match t {
        None => Some(Box::new(new)),
        Some(root) => splayed(Some(Box::new(root.bst_inserted(new))), new.key),
    }
}

/// The join of two trees: `left` splayed for its last key, with `right` hung
/// at the right-most place of the new root; `right` alone where `left` is
/// empty. The new root has a right subtree only where its key occurs again
/// after it, and `right` then comes to stand below those nodes.
pub open spec fn joined<K: Ord + Clone>(left: SplayNode<K>, right: SplayNode<K>) -> SplayNode<K> {
    match left {
        None => right,
        Some(l) => {
            let top = splay_from(None, *l, None, l@.last());
            subtree(top.left, top.key, graft_right(top.right, right))
        },
    }
}

/// The tree that `delete` makes of `t`: `t` splayed for `key`, and, where
/// the root then holds `key`, the join of the root's two subtrees.
pub open spec fn deleted<K: Ord + Clone>(t: SplayNode<K>, key: K) -> SplayNode<K> {
    match splayed(t, key) {
        None => None,
        Some(top) => if top.key == key {
            joined(top.left, top.right)
        } else {
            Some(top)
        },
    }
}

/// `node` without the node at the end of its left spine, whose right subtree
/// takes that node's place.
pub open spec fn without_left_most<K>(node: Node<K>) -> SplayNode<K>
    decreases node,
{
    match node.left {
        None => node.right,
        Some(child) => Some(
            Box::new(Node { left: without_left_most(*child), right: node.right, key: node.key }),
        ),
    }
}

/// The tree that `pop_left_most` leaves of `t`.
pub open spec fn tree_popped<K>(t: SplayNode<K>) -> SplayNode<K> {
    match t {
        None => None,
        Some(root) => without_left_most(*root),
    }
}

/// Inserting a node without children brings its key to the root and adds
/// the key to the keys of the tree, once; a tree that was in key order stays
/// in key order.
pub proof fn lemma_tree_inserted<K: Ord + Clone>(t: SplayNode<K>, key: K)
    requires
        total_order::<K>(),
    ensures
        ({
            let r = tree_inserted(t, Node::leaf(key));
            &&& r is Some
            &&& r.unwrap().key == key
            &&& inorder(r).to_multiset() == inorder(t).to_multiset().insert(key)
            &&& inorder(r).len() == inorder(t).len() + 1
            &&& sorted(inorder(t)) ==> sorted(inorder(r))
        }),
{
    broadcast use vstd::seq_lib::group_to_multiset_ensures;

    let new = Node::leaf(key);
    let r = tree_inserted(t, new);
    match t {
        None => {
            let empty = Seq::<K>::empty();
            lemma_view_multiset(new);
            assert(inorder::<K>(None) == empty);
            assert(empty.to_multiset() =~= Multiset::<K>::empty());
            assert(new@.len() == 1);
        },
        Some(root) => {
            let grown = root.bst_inserted(new);
            root.lemma_bst_inserted_multiset(new);
            root.lemma_bst_inserted_found(new);
            if sorted(root@) {
                root.lemma_bst_inserted_sorted(new);
            }
            lemma_splay_whole(grown, key);
        },
    }
    inorder(r).to_multiset_ensures();
    inorder(t).to_multiset_ensures();
}

/// Taking away the left-most node takes away the first key in in-order.
pub proof fn lemma_without_left_most<K>(node: Node<K>)
    ensures
        inorder(without_left_most(node)) == node@.drop_first(),
    decreases node,
{
    match node.left {
        None => {
            assert(inorder::<K>(None) == Seq::<K>::empty());
            assert(node@.drop_first() =~= inorder(node.right));
        },
        Some(child) => {
            lemma_without_left_most(*child);
            assert(child@.drop_first().push(node.key) + inorder(node.right)
                =~= node@.drop_first());
        },
    }
}

/// A join keeps every key of the two trees: those of `left` come first, then
/// those of `right`.
pub proof fn lemma_joined_inorder<K: Ord + Clone>(left: SplayNode<K>, right: SplayNode<K>)
    requires
        total_order::<K>(),
    ensures
        inorder(joined(left, right)) == inorder(left) + inorder(right),
{
    match left {
        None => {
            assert(inorder::<K>(None) + inorder(right) =~= inorder(right));
        },
        Some(l) => {
            let top = splay_from(None, *l, None, l@.last());
            lemma_splay_whole(*l, l@.last());
            lemma_graft_right_inorder(top.right, right);
            assert(inorder(top.left).push(top.key) + (inorder(top.right) + inorder(right))
                =~= top@ + inorder(right));
        },
    }
}

/// What `delete` does to the keys. Where the search for `key` ends at a node
/// that holds it, that node's key leaves the in-order sequence and every
/// other key stays in its place; otherwise the sequence stays as it is.
pub proof fn lemma_deleted_inorder<K: Ord + Clone>(start: Node<K>, key: K)
    requires
        total_order::<K>(),
    ensures
        ({
            let before = start@;
            let after = inorder(deleted(Some(Box::new(start)), key));
            let i = start.search_index(key);
            &&& 0 <= i < before.len()
            &&& before[i] == key ==> after == before.remove(i)
            &&& before[i] != key ==> after == before
        }),
{
    let before = start@;
    let i = start.search_index(key);
    let top = splay_from(None, start, None, key);
    lemma_splay_whole(start, key);
    if before[i] == key {
        lemma_joined_inorder(top.left, top.right);
        assert(before.remove(i) =~= before.take(i) + before.skip(i + 1));
    } else {
        assert(inorder(Some(Box::new(top))) == top@);
    }
}

/// Deleting a key that does not occur in the tree only splays the tree: the
/// keys stay as they are.
pub proof fn lemma_deleted_absent<K: Ord + Clone>(t: SplayNode<K>, key: K)
    requires
        total_order::<K>(),
        !inorder(t).contains(key),
    ensures
        deleted(t, key) == splayed(t, key),
        inorder(deleted(t, key)) == inorder(t),
{
    match t {
        None => {},
        Some(start) => {
            lemma_deleted_inorder(*start, key);
            lemma_splay_whole(*start, key);
            assert(start@.contains(start@[start.search_index(key)]));
        },
    }
}

/// Deleting from a tree whose keys are in order leaves them in order.
pub proof fn lemma_deleted_sorted<K: Ord + Clone>(t: SplayNode<K>, key: K)
    requires
        total_order::<K>(),
        sorted(inorder(t)),
    ensures
        sorted(inorder(deleted(t, key))),
{
    match t {
        None => {},
        Some(start) => {
            let before = start@;
            let after = inorder(deleted(t, key));
            let i = start.search_index(key);
            lemma_deleted_inorder(*start, key);
            if before[i] == key {
                assert forall|a: int, b: int| 0 <= a < b < after.len() implies le(
                    after[a],
                    after[b],
                ) by {
                    let a0 = if a < i {
                        a
                    } else {
                        a + 1
                    };
                    let b0 = if b < i {
                        b
                    } else {
                        b + 1
                    };
                    assert(after[a] == before[a0] && after[b] == before[b0]);
                }
            }
        },
    }
}

/// Deleting a key that occurs in a tree whose keys are in order takes one
/// occurrence of it away and nothing else.
pub proof fn lemma_deleted_present<K: Ord + Clone>(t: SplayNode<K>, key: K)
    requires
        total_order::<K>(),
        sorted(inorder(t)),
        inorder(t).contains(key),
    ensures
        inorder(deleted(t, key)).to_multiset() == inorder(t).to_multiset().remove(key),
        inorder(deleted(t, key)).len() == inorder(t).len() - 1,
{
    match t {
        None => {
            assert(inorder::<K>(None) == Seq::<K>::empty());
        },
        Some(start) => {
            let i = start.search_index(key);
            lemma_deleted_inorder(*start, key);
            lemma_search_finds_present(*start, key);
            vstd::seq_lib::to_multiset_remove(start@, i);
        },
    }
}

/// Takes the node at the end of the left spine out of `node`'s subtree.
/// Gives that node, with no children left, and what remains of the subtree.
fn detach_left_most<K: Ord + Clone>(node: Box<Node<K>>) -> (parts: (Box<Node<K>>, SplayNode<K>))
    ensures
        *parts.0 == Node::leaf(node@.first()),
        parts.1 == without_left_most(*node),
        inorder(parts.1) == node@.drop_first(),
    decreases node,
{
    proof {
        lemma_without_left_most(*node);
    }
    let mut node = node;
    match node.left.take() {
        None => {
            let right_tree = node.right.take();
            (node, right_tree)
        },
        Some(child) => {
            let (left_most, rest) = detach_left_most(child);
            node.left = rest;
            (left_most, Some(node))
        },
    }
}

impl<K: Ord + Clone> Splayable<K> for SplayTree<K> {
    /// Top-down splay. The node at which a search for `key` ends becomes the
    /// root: the first node on the way down that holds `key`, or the last
    /// node before the way runs out. The keys keep their in-order sequence:
    /// those before the new root are in its left subtree, those after it in
    /// its right subtree. An empty tree stays empty.
    fn splay(&mut self, key: K)
        ensures
            final(self).root == splayed(old(self).root, key),
            final(self)@ == old(self)@,
            match old(self).root {
                None => final(self).root is None,
                Some(start) => {
                    let i = start.search_index(key);
                    &&& 0 <= i < old(self)@.len()
                    &&& final(self).root is Some
                    &&& final(self).root.unwrap().key == old(self)@[i]
                    &&& inorder(final(self).root.unwrap().left) == old(self)@.take(i)
                    &&& inorder(final(self).root.unwrap().right) == old(self)@.skip(i + 1)
                },
            },
            old(self).well_formed() ==> final(self).well_formed(),
            old(self).well_formed() && old(self)@.contains(key) ==> final(self).root is Some
                && final(self).root.unwrap().key == key,
            old(self).well_formed() && old(self).root is Some && !old(self)@.contains(key) ==> {
                ||| is_predecessor(old(self)@, key, final(self).root.unwrap().key)
                ||| is_successor(old(self)@, key, final(self).root.unwrap().key)
            },
    {
        let mut node = match self.root.take() {
            None => {
                return ;
            },
            Some(root) => root,
        };
        let ghost start = *node;
        let mut new_left: SplayNode<K> = None;
        let mut new_right: SplayNode<K> = None;
        loop
            invariant
                total_order::<K>(),
                self.root is None,
                old(self).root == Some(Box::new(start)),
                splay_from(new_left, *node, new_right, key) == splay_from(None, start, None, key),
            decreases node@.len(),
        {
            let ghost before = *node;
            match splay_case(&node, &key) {
                SplayCase::Merge => {
                    let right_tree = node.right.take();
                    let left_tree = node.left.take();
                    node.right = graft_left_most(new_right, right_tree);
                    node.left = graft_right_most(new_left, left_tree);
                    self.root = Some(node);
                    proof {
                        lemma_splay_whole(start, key);
                        if sorted(start@) {
                            if start@.contains(key) {
                                lemma_search_finds_present(start, key);
                            } else {
                                lemma_search_ends_at_neighbour(start, key);
                            }
                        }
                    }
                    return ;
                },
                SplayCase::LeftRotate => {
                    let left_tree = node.left.take().unwrap();
                    new_right = graft_left_most(new_right, Some(node));
                    node = left_tree;
                },
                SplayCase::RightRotate => {
                    let right_tree = node.right.take().unwrap();
                    new_left = graft_right_most(new_left, Some(node));
                    node = right_tree;
                },
                SplayCase::ZigZigLeft => {
                    let mut left_tree = node.left.take().unwrap();
                    match left_tree.left.take() {
                        Some(left_left_tree) => {
                            node.left = left_tree.right.take();
                            left_tree.right = Some(node);
                            new_right = graft_left_most(new_right, Some(left_tree));
                            node = left_left_tree;
                        },
                        None => {
                            new_right = graft_left_most(new_right, Some(node));
                            node = left_tree;
                        },
                    }
                },
                SplayCase::ZigZigRight => {
                    let mut right_tree = node.right.take().unwrap();
                    match right_tree.right.take() {
                        Some(right_right_tree) => {
                            node.right = right_tree.left.take();
                            right_tree.left = Some(node);
                            new_left = graft_right_most(new_left, Some(right_tree));
                            node = right_right_tree;
                        },
                        None => {
                            new_left = graft_right_most(new_left, Some(node));
                            node = right_tree;
                        },
                    }
                },
                SplayCase::ZigZagLeft => {
                    let mut left_tree = node.left.take().unwrap();
                    match left_tree.right.take() {
                        Some(left_right_tree) => {
                            new_left = graft_right_most(new_left, Some(left_tree));
                            new_right = graft_left_most(new_right, Some(node));
                            node = left_right_tree;
                        },
                        None => {
                            new_right = graft_left_most(new_right, Some(node));
                            node = left_tree;
                        },
                    }
                },
                SplayCase::ZigZagRight => {
                    let mut right_tree = node.right.take().unwrap();
                    match right_tree.left.take() {
                        Some(right_left_tree) => {
                            new_right = graft_left_most(new_right, Some(right_tree));
                            new_left = graft_right_most(new_left, Some(node));
                            node = right_left_tree;
                        },
                        None => {
                            new_left = graft_right_most(new_left, Some(node));
                            node = right_tree;
                        },
                    }
                },
            }
            proof {
                assert(inorder(before.left).len() + inorder(before.right).len() + 1
                    == before@.len());
                assert(inorder(Some(Box::new(*node))) == node@);
            }
        }
    }
}

impl<K: Ord + Clone> SplayTree<K> {
    /// The keys of the tree are in non-decreasing order from left to right.
    pub open spec fn well_formed(&self) -> bool {
        sorted(self@)
    }

    /// An empty tree.
    pub fn new() -> (tree: Self)
        ensures
            tree.root is None,
            tree@ == Seq::<K>::empty(),
            tree.well_formed(),
    {
        SplayTree { root: None }
    }

    /// Puts `inserted` into the tree and splays the tree for its key, so that
    /// a node with that key is the root afterwards. Among nodes of equal key
    /// that need not be the node just inserted.
    ///
    /// A node without children adds its key to the keys of the tree, once,
    /// and a tree that was in key order stays in key order.
    pub fn insert(&mut self, inserted: Box<Node<K>>)
        requires
            total_order::<K>(),
        ensures
            final(self).root == tree_inserted(old(self).root, *inserted),
            final(self).root is Some,
            final(self).root.unwrap().key == inserted.key,
            inserted.is_leaf() ==> final(self)@.to_multiset() == old(self)@.to_multiset().insert(
                inserted.key,
            ),
            inserted.is_leaf() ==> final(self)@.len() == old(self)@.len() + 1,
            inserted.is_leaf() && old(self).well_formed() ==> final(self).well_formed(),
    {
        match self.root.take() {
            None => {
                proof {
                    broadcast use vstd::seq_lib::group_to_multiset_ensures;

                    let empty = Seq::<K>::empty();
                    lemma_view_multiset(*inserted);
                    assert(inorder::<K>(None) == empty);
                    assert(inorder(Some(inserted)) == inserted@);
                    assert(empty.to_multiset() =~= Multiset::<K>::empty());
                    if inserted.is_leaf() {
                        assert(inserted@.len() == 1);
                    }
                }
                self.root = Some(inserted);
            },
            Some(mut root) => {
                let key = key_copy(&inserted.key);
                (&mut *root).bstinsert(inserted);
                proof {
                    assert(inorder(Some(root)) == root@);
                }
                self.root = Some(root);
                self.splay(key);
                proof {
                    self@.to_multiset_ensures();
                    old(self)@.to_multiset_ensures();
                }
            },
        }
    }

    /// Takes a node with key `key` out of the tree, if the search for `key`
    /// finds one. The tree is splayed for `key` either way. Where the root
    /// then holds `key`, it is detached and its two subtrees are joined: the
    /// left one is splayed for its last key, and the right one is hung at the
    /// right-most place of the new root.
    ///
    /// The key of the node found leaves the in-order sequence, and every
    /// other key stays in its place. A key that does not occur in the tree
    /// leaves the keys as they are. In a tree in key order a key that occurs
    /// is found: one occurrence of it leaves, and nothing else.
    pub fn delete(&mut self, key: K)
        requires
            total_order::<K>(),
        ensures
            final(self).root == deleted(old(self).root, key),
            match old(self).root {
                None => final(self).root is None,
                Some(start) => {
                    let i = start.search_index(key);
                    &&& 0 <= i < old(self)@.len()
                    &&& old(self)@[i] == key ==> final(self)@ == old(self)@.remove(i)
                    &&& old(self)@[i] != key ==> final(self)@ == old(self)@
                },
            },
            !old(self)@.contains(key) ==> final(self)@ == old(self)@,
            old(self).well_formed() ==> final(self).well_formed(),
            old(self).well_formed() && old(self)@.contains(key) ==> final(self)@.to_multiset()
                == old(self)@.to_multiset().remove(key),
            old(self).well_formed() && old(self)@.contains(key) ==> final(self)@.len() == old(
                self,
            )@.len() - 1,
    {
        proof {
            if self.root is Some {
                lemma_deleted_inorder(*self.root.unwrap(), key);
            }
            if !self@.contains(key) {
                lemma_deleted_absent(self.root, key);
            }
            if self.well_formed() {
                lemma_deleted_sorted(self.root, key);
                if self@.contains(key) {
                    lemma_deleted_present(self.root, key);
                }
            }
        }
        if self.root.is_none() {
            return ;
        }
        self.splay(key_copy(&key));
        let mut top = self.root.take().unwrap();
        if !key_eq(&top.key, &key) {
            self.root = Some(top);
            return ;
        }
        let left_tree = top.left.take();
        let right_tree = top.right.take();
        match left_tree {
            None => {
                self.root = right_tree;
            },
            Some(left_root) => {
                let left_right_most = left_root.right_most_key();
                self.root = Some(left_root);
                self.splay(left_right_most);
                let mut joined_root = self.root.take().unwrap();
                (&mut *joined_root).insert_right_most(right_tree);
                self.root = Some(joined_root);
            },
        }
    }

    /// Takes the first node in in-order out of the tree, without splaying:
    /// the node at the end of the left spine, whose right subtree takes its
    /// place. Gives that node, with no children left, or nothing where the
    /// tree is empty.
    pub fn pop_left_most(&mut self) -> (popped: SplayNode<K>)
        ensures
            match old(self).root {
                None => popped is None && final(self).root is None,
                Some(root) => {
                    &&& popped == Some(Box::new(Node::leaf(old(self)@.first())))
                    &&& final(self).root == without_left_most(*root)
                    &&& final(self)@ == old(self)@.drop_first()
                    &&& final(self)@.len() == old(self)@.len() - 1
                },
            },
            old(self).well_formed() ==> final(self).well_formed(),
    {
        match self.root.take() {
            None => None,
            Some(root) => {
                proof {
                    assert(inorder(Some(root)) == root@);
                }
                let (left_most, rest) = detach_left_most(root);
                self.root = rest;
                Some(left_most)
            },
        }
    }

    /// Takes the tree apart from left to right. Gives its nodes in in-order,
    /// each with no children left: their keys are the keys of the tree in
    /// their in-order sequence, every one of them once.
    pub fn into_nodes(self) -> (nodes: Vec<Box<Node<K>>>)
        ensures
            nodes@.len() == self@.len(),
            forall|i: int| 0 <= i < nodes@.len() ==> *#[trigger] nodes@[i] == Node::leaf(self@[i]),
            self.well_formed() ==> sorted(Seq::new(nodes@.len(), |i: int| nodes@[i].key)),
    {
        let mut tree = self;
        let mut nodes: Vec<Box<Node<K>>> = Vec::new();
        loop
            invariant
                nodes@.len() + tree@.len() == self@.len(),
                forall|i: int| 0 <= i < nodes@.len() ==> *#[trigger] nodes@[i] == Node::leaf(self@[i]),
                tree@ == self@.skip(nodes@.len() as int),
            decreases tree@.len(),
        {
            match tree.pop_left_most() {
                None => {
                    proof {
                        assert(inorder::<K>(None) == Seq::<K>::empty());
                        assert(Seq::new(nodes@.len(), |i: int| nodes@[i].key) =~= self@);
                    }
                    return nodes;
                },
                Some(node) => {
                    proof {
                        let n = nodes@.len() as int;
                        assert(self@.skip(n).drop_first() =~= self@.skip(n + 1));
                        assert(self@.skip(n).first() == self@[n]);
                    }
                    nodes.push(node);
                },
            }
        }
    }
}

impl<K: Ord + Clone> IntoIterator for SplayTree<K> {
    type Item = Box<Node<K>>;

    type IntoIter = std::vec::IntoIter<Box<Node<K>>>;

    /// Consuming iteration: the nodes of the tree in in-order, each with no
    /// children left. The iterator yields the keys of the tree in their
    /// in-order sequence, every one of them once.
    fn into_iter(self) -> (iter: std::vec::IntoIter<Box<Node<K>>>)
        ensures
            into_iter_elts(iter).len() == self@.len(),
            forall|i: int|
                0 <= i < self@.len() ==> *#[trigger] into_iter_elts(iter)[i] == Node::leaf(
                    self@[i],
                ),
    {
        broadcast use vstd::std_specs::vec::axiom_spec_into_iter;

        let nodes = self.into_nodes();
        nodes.into_iter()
    }
}

} // verus!
