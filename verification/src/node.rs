//! Tree nodes, their in-order view, and the structural helpers that the tree
//! operations are assembled from.

use crate::order::all_ge;
use crate::order::all_le;
use crate::order::clone_is_same;
use crate::order::key_copy;
use crate::order::key_eq;
use crate::order::key_lt;
use crate::order::le;
use crate::order::lemma_sorted_around;
use crate::order::lemma_trichotomy;
use crate::order::lt;
use crate::order::sorted;
use crate::order::total_order;
use vstd::prelude::*;
use vstd::seq_lib::lemma_multiset_commutative;

verus! {

/// A child slot: an owned subtree, or nothing.
pub type SplayNode<K> = Option<Box<Node<K>>>;

/// A node of the tree: a key and two optional subtrees.
#[derive(Debug)]
pub struct Node<K> {
    pub left: SplayNode<K>,
    pub right: SplayNode<K>,
    pub key: K,
}

/// The keys of a subtree in in-order: left subtree, key, right subtree.
pub open spec fn inorder<K>(t: SplayNode<K>) -> Seq<K>
    decreases t,
{
    match t {
        None => Seq::empty(),
        Some(n) => inorder(n.left).push(n.key) + inorder(n.right),
    }
}

/// `t` with `sub` hung below the last node of its left spine; `sub` itself
/// where `t` is empty.
pub open spec fn graft_left<K>(t: SplayNode<K>, sub: SplayNode<K>) -> SplayNode<K>
    decreases t,
{
    match t {
        None => sub,
        Some(n) => Some(
            Box::new(Node { left: graft_left(n.left, sub), right: n.right, key: n.key }),
        ),
    }
}

/// `t` with `sub` hung below the last node of its right spine; `sub` itself
/// where `t` is empty.
pub open spec fn graft_right<K>(t: SplayNode<K>, sub: SplayNode<K>) -> SplayNode<K>
    decreases t,
{
    match t {
        None => sub,
        Some(n) => Some(
            Box::new(Node { left: n.left, right: graft_right(n.right, sub), key: n.key }),
        ),
    }
}

impl<K: Clone> Clone for Node<K> {
    /// A copy of the node and of everything below it. Where a clone of a key
    /// is that key, the copy is the same tree.
    fn clone(&self) -> (copy: Self)
        ensures
            clone_is_same::<K>() ==> copy == *self,
        decreases self,
    {
        let key = self.key.clone();
        proof {
            assert(cloned(self.key, key));
        }
        Node {
            left: match &self.left {
                Some(child) => Some(Box::new((&**child).clone())),
                None => None,
            },
            right: match &self.right {
                Some(child) => Some(Box::new((&**child).clone())),
                None => None,
            },
            key,
        }
    }
}

impl<K> View for Node<K> {
    type V = Seq<K>;

    /// The keys of the node's subtree in in-order.
    open spec fn view(&self) -> Seq<K> {
        inorder(self.left).push(self.key) + inorder(self.right)
    }
}

/// Grafting nothing changes nothing.
pub proof fn lemma_graft_left_none<K>(t: SplayNode<K>)
    ensures
        graft_left(t, None) == t,
    decreases t,
{
    match t {
        None => {},
        Some(n) => {
            lemma_graft_left_none(n.left);
        },
    }
}

/// Grafting nothing changes nothing.
pub proof fn lemma_graft_right_none<K>(t: SplayNode<K>)
    ensures
        graft_right(t, None) == t,
    decreases t,
{
    match t {
        None => {},
        Some(n) => {
            lemma_graft_right_none(n.right);
        },
    }
}

/// A subtree grafted at the left-most place comes first in in-order.
pub proof fn lemma_graft_left_inorder<K>(t: SplayNode<K>, sub: SplayNode<K>)
    ensures
        inorder(graft_left(t, sub)) == inorder(sub) + inorder(t),
    decreases t,
{
    match t {
        None => {
            assert(inorder(sub) + Seq::<K>::empty() =~= inorder(sub));
        },
        Some(n) => {
            lemma_graft_left_inorder(n.left, sub);
            assert((inorder(sub) + inorder(n.left)).push(n.key) + inorder(n.right) =~= inorder(sub)
                + (inorder(n.left).push(n.key) + inorder(n.right)));
        },
    }
}

/// A subtree grafted at the right-most place comes last in in-order.
pub proof fn lemma_graft_right_inorder<K>(t: SplayNode<K>, sub: SplayNode<K>)
    ensures
        inorder(graft_right(t, sub)) == inorder(t) + inorder(sub),
    decreases t,
{
    match t {
        None => {
            assert(Seq::<K>::empty() + inorder(sub) =~= inorder(sub));
        },
        Some(n) => {
            lemma_graft_right_inorder(n.right, sub);
            assert(inorder(n.left).push(n.key) + (inorder(n.right) + inorder(sub)) =~= (inorder(
                n.left,
            ).push(n.key) + inorder(n.right)) + inorder(sub));
        },
    }
}

/// Binary-search-tree order: at every node, no key of the left subtree is
/// above the node's key and no key of the right subtree is below it.
pub open spec fn bst_ordered<K: Ord>(t: SplayNode<K>) -> bool
    decreases t,
{
    match t {
        None => true,
        Some(n) => {
            &&& bst_ordered(n.left)
            &&& bst_ordered(n.right)
            &&& all_le(inorder(n.left), n.key)
            &&& all_ge(inorder(n.right), n.key)
        },
    }
}

/// A tree is in binary-search-tree order exactly when its keys, read in
/// in-order, never decrease.
pub proof fn lemma_bst_ordered_iff_sorted<K: Ord + Clone>(t: SplayNode<K>)
    requires
        total_order::<K>(),
    ensures
        bst_ordered(t) <==> sorted(inorder(t)),
    decreases t,
{
    match t {
        None => {},
        Some(n) => {
            lemma_bst_ordered_iff_sorted(n.left);
            lemma_bst_ordered_iff_sorted(n.right);
            lemma_sorted_around(inorder(n.left), n.key, inorder(n.right));
        },
    }
}

/// Whether two subtrees are the same, in shape and in keys.
fn same_subtree<K: Ord + Clone>(a: &SplayNode<K>, b: &SplayNode<K>) -> (same: bool)
    requires
        total_order::<K>(),
    ensures
        same == (*a == *b),
    decreases *a,
{
    match a {
        None => b.is_none(),
        Some(x) => match b {
            None => false,
            Some(y) => x.same_as(y),
        },
    }
}

/// The keys of a node as a multiset: those of its two subtrees and its own.
pub proof fn lemma_view_multiset<K>(n: Node<K>)
    ensures
        n@.to_multiset() =~= inorder(n.left).to_multiset().add(
            inorder(n.right).to_multiset(),
        ).insert(n.key),
{
    broadcast use vstd::seq_lib::group_to_multiset_ensures;

    lemma_multiset_commutative(inorder(n.left).push(n.key), inorder(n.right));
}

/// A key occurs in a node's subtree exactly when it is the node's own key or
/// occurs in one of the two subtrees.
pub proof fn lemma_view_contains<K>(n: Node<K>, x: K)
    ensures
        n@.contains(x) <==> (x == n.key || inorder(n.left).contains(x) || inorder(
            n.right,
        ).contains(x)),
{
    lemma_view_multiset(n);
    let l = inorder(n.left);
    let r = inorder(n.right);
    n@.to_multiset_ensures();
    l.to_multiset_ensures();
    r.to_multiset_ensures();
    assert(n@.to_multiset().count(x) == l.to_multiset().count(x) + r.to_multiset().count(x) + (
    if x == n.key {
        1int
    } else {
        0int
    }));
}

/// Where `a` holds the keys of `b` and `k` once more, a key occurs in `a`
/// exactly when it is `k` or occurs in `b`.
pub proof fn lemma_contains_after_insert<K>(a: Seq<K>, b: Seq<K>, k: K, x: K)
    requires
        a.to_multiset() == b.to_multiset().insert(k),
    ensures
        a.contains(x) <==> (x == k || b.contains(x)),
{
    a.to_multiset_ensures();
    b.to_multiset_ensures();
    assert(a.to_multiset().count(x) == b.to_multiset().count(x) + (if x == k {
        1int
    } else {
        0int
    }));
}

impl<K: Ord + Clone> Node<K> {
    /// The in-order position of the node at which a search for `key` ends:
    /// the first node on the way down whose key is `key`, or the last node
    /// before the way down runs out.
    pub open spec fn search_index(self, key: K) -> int
        decreases self,
    {
        let before = inorder(self.left).len() as int;
        if key == self.key {
            before
        } else if lt(key, self.key) {
            match self.left {
                Some(child) => child.search_index(key),
                None => before,
            }
        } else {
            match self.right {
                Some(child) => before + 1 + child.search_index(key),
                None => before,
            }
        }
    }

    /// The key of the node at which a search for `key` ends.
    pub open spec fn search_end(self, key: K) -> K {
        self@[self.search_index(key)]
    }

    /// The tree that `bstinsert` makes of `self` and `new`: `new` goes down
    /// the search path for its key and takes the first free place, or, at the
    /// first node with an equal key, becomes that node's left child and takes
    /// over that node's former left subtree in place of its own.
    pub open spec fn bst_inserted(self, new: Node<K>) -> Node<K>
        decreases self,
    {
        if new.key == self.key {
            Node {
                left: Some(Box::new(Node { left: self.left, right: new.right, key: new.key })),
                right: self.right,
                key: self.key,
            }
        } else if lt(new.key, self.key) {
            Node {
                left: Some(
                    Box::new(
                        match self.left {
                            Some(child) => child.bst_inserted(new),
                            None => new,
                        },
                    ),
                ),
                right: self.right,
                key: self.key,
            }
        } else {
            Node {
                left: self.left,
                right: Some(
                    Box::new(
                        match self.right {
                            Some(child) => child.bst_inserted(new),
                            None => new,
                        },
                    ),
                ),
                key: self.key,
            }
        }
    }

    /// The search ends at a node of the tree.
    pub proof fn lemma_search_index_in_range(self, key: K)
        ensures
            0 <= self.search_index(key) < self@.len(),
        decreases self,
    {
        if key == self.key {
        } else if lt(key, self.key) {
            if let Some(child) = self.left {
                child.lemma_search_index_in_range(key);
            }
        } else {
            if let Some(child) = self.right {
                child.lemma_search_index_in_range(key);
            }
        }
    }

    /// Inserting a childless node adds its key to the keys of the tree, once.
    pub proof fn lemma_bst_inserted_multiset(self, new: Node<K>)
        requires
            new.is_leaf(),
        ensures
            self.bst_inserted(new)@.to_multiset() =~= self@.to_multiset().insert(new.key),
        decreases self,
    {
        broadcast use vstd::seq_lib::group_to_multiset_ensures;

        let r = self.bst_inserted(new);
        lemma_view_multiset(self);
        lemma_view_multiset(r);
        if new.key == self.key {
            lemma_view_multiset(*r.left.unwrap());
        } else if lt(new.key, self.key) {
            match self.left {
                Some(child) => {
                    child.lemma_bst_inserted_multiset(new);
                },
                None => {
                    lemma_view_multiset(new);
                },
            }
        } else {
            match self.right {
                Some(child) => {
                    child.lemma_bst_inserted_multiset(new);
                },
                None => {
                    lemma_view_multiset(new);
                },
            }
        }
    }

    /// Inserting a childless node into a tree in key order leaves it in key
    /// order.
    pub proof fn lemma_bst_inserted_sorted(self, new: Node<K>)
        requires
            total_order::<K>(),
            new.is_leaf(),
            sorted(self@),
        ensures
            sorted(self.bst_inserted(new)@),
        decreases self,
    {
        broadcast use vstd::seq_lib::group_to_multiset_ensures;

        let r = self.bst_inserted(new);
        let k = self.key;
        lemma_sorted_around(inorder(self.left), k, inorder(self.right));
        lemma_sorted_around(inorder(r.left), k, inorder(r.right));
        lemma_trichotomy(new.key, k);
        if new.key == k {
            let m = *r.left.unwrap();
            lemma_sorted_around(inorder(self.left), k, Seq::<K>::empty());
            assert(m@ =~= inorder(self.left).push(k) + Seq::<K>::empty());
            assert forall|x: K| m@.contains(x) implies le(x, k) by {
                lemma_view_contains(m, x);
            }
        } else if lt(new.key, k) {
            let m = *r.left.unwrap();
            match self.left {
                Some(child) => {
                    child.lemma_bst_inserted_sorted(new);
                    child.lemma_bst_inserted_multiset(new);
                },
                None => {
                    lemma_sorted_around(Seq::<K>::empty(), new.key, Seq::<K>::empty());
                    lemma_view_multiset(new);
                },
            }
            assert forall|x: K| m@.contains(x) implies le(x, k) by {
                lemma_contains_after_insert(m@, inorder(self.left), new.key, x);
            }
        } else {
            let m = *r.right.unwrap();
            match self.right {
                Some(child) => {
                    child.lemma_bst_inserted_sorted(new);
                    child.lemma_bst_inserted_multiset(new);
                },
                None => {
                    lemma_sorted_around(Seq::<K>::empty(), new.key, Seq::<K>::empty());
                    lemma_view_multiset(new);
                },
            }
            assert forall|x: K| m@.contains(x) implies le(k, x) by {
                lemma_contains_after_insert(m@, inorder(self.right), new.key, x);
            }
        }
    }

    /// After an insertion, a search for the inserted key ends at a node with
    /// that key.
    pub proof fn lemma_bst_inserted_found(self, new: Node<K>)
        ensures
            self.bst_inserted(new).search_end(new.key) == new.key,
        decreases self,
    {
        let r = self.bst_inserted(new);
        if new.key == self.key {
        } else if lt(new.key, self.key) {
            let m = *r.left.unwrap();
            match self.left {
                Some(child) => {
                    child.lemma_bst_inserted_found(new);
                },
                None => {},
            }
            m.lemma_search_index_in_range(new.key);
        } else {
            let m = *r.right.unwrap();
            match self.right {
                Some(child) => {
                    child.lemma_bst_inserted_found(new);
                },
                None => {},
            }
            m.lemma_search_index_in_range(new.key);
        }
    }

    /// A node with the given key and no children.
    pub open spec fn leaf(k: K) -> Node<K> {
        Node { left: None, right: None, key: k }
    }

    /// The node has no children.
    pub open spec fn is_leaf(self) -> bool {
        self.left is None && self.right is None
    }

    /// Makes a node with key `k` and no children.
    pub fn new(k: K) -> (node: Box<Self>)
        ensures
            *node == Self::leaf(k),
    {
        Box::new(Node { left: None, right: None, key: k })
    }

    /// Hangs `inserted` below the last node of the left spine. The keys of
    /// `inserted` then come before all keys of `self` in in-order.
    pub fn insert_left_most(&mut self, inserted: SplayNode<K>)
        ensures
            final(self).key == old(self).key,
            final(self).right == old(self).right,
            final(self).left == graft_left(old(self).left, inserted),
            final(self)@ == inorder(inserted) + old(self)@,
            inserted is None ==> *final(self) == *old(self),
        decreases *old(self),
    {
        proof {
            lemma_graft_left_none(self.left);
            lemma_graft_left_inorder(self.left, inserted);
            assert((inorder(inserted) + inorder(self.left)).push(self.key) + inorder(self.right)
                =~= inorder(inserted) + (inorder(self.left).push(self.key) + inorder(
                self.right,
            )));
        }
        if inserted.is_none() {
            return ;
        }
        match self.left.take() {
            None => {
                self.left = inserted;
            },
            Some(mut child) => {
                (&mut *child).insert_left_most(inserted);
                self.left = Some(child);
            },
        }
    }

    /// Hangs `inserted` below the last node of the right spine. The keys of
    /// `inserted` then come after all keys of `self` in in-order.
    pub fn insert_right_most(&mut self, inserted: SplayNode<K>)
        ensures
            final(self).key == old(self).key,
            final(self).left == old(self).left,
            final(self).right == graft_right(old(self).right, inserted),
            final(self)@ == old(self)@ + inorder(inserted),
            inserted is None ==> *final(self) == *old(self),
        decreases *old(self),
    {
        proof {
            lemma_graft_right_none(self.right);
            lemma_graft_right_inorder(self.right, inserted);
            assert(inorder(self.left).push(self.key) + (inorder(self.right) + inorder(inserted))
                =~= (inorder(self.left).push(self.key) + inorder(self.right)) + inorder(
                inserted,
            ));
        }
        if inserted.is_none() {
            return ;
        }
        match self.right.take() {
            None => {
                self.right = inserted;
            },
            Some(mut child) => {
                (&mut *child).insert_right_most(inserted);
                self.right = Some(child);
            },
        }
    }

    /// Binary-search-tree insertion of `inserted` below `self`. The node goes
    /// down the search path for its key. At the first node with an equal key
    /// it is spliced in as that node's left child, above that node's former
    /// left subtree; otherwise it takes the free place where the path ends.
    pub fn bstinsert(&mut self, inserted: Box<Node<K>>)
        requires
            total_order::<K>(),
        ensures
            *final(self) == old(self).bst_inserted(*inserted),
            final(self).search_end(inserted.key) == inserted.key,
            inserted.is_leaf() ==> final(self)@.to_multiset() == old(self)@.to_multiset().insert(
                inserted.key,
            ),
            inserted.is_leaf() && sorted(old(self)@) ==> sorted(final(self)@),
        decreases *old(self),
    {
        proof {
            lemma_trichotomy(inserted.key, self.key);
            self.lemma_bst_inserted_found(*inserted);
            if inserted.is_leaf() {
                self.lemma_bst_inserted_multiset(*inserted);
                if sorted(self@) {
                    self.lemma_bst_inserted_sorted(*inserted);
                }
            }
        }
        let mut inserted = inserted;
        if key_eq(&self.key, &inserted.key) {
            inserted.left = self.left.take();
            self.left = Some(inserted);
        } else if key_lt(&inserted.key, &self.key) {
            match self.left.take() {
                Some(mut child) => {
                    (&mut *child).bstinsert(inserted);
                    self.left = Some(child);
                },
                None => {
                    self.left = Some(inserted);
                },
            }
        } else {
            match self.right.take() {
                Some(mut child) => {
                    (&mut *child).bstinsert(inserted);
                    self.right = Some(child);
                },
                None => {
                    self.right = Some(inserted);
                },
            }
        }
    }

    /// Whether `self` and `other` are the same tree: equal keys at the two
    /// nodes and, in turn, the same left and the same right subtrees.
    pub fn same_as(&self, other: &Self) -> (same: bool)
        requires
            total_order::<K>(),
        ensures
            same == (*self == *other),
        decreases *self,
    {
        key_eq(&self.key, &other.key) && same_subtree(&self.left, &other.left) && same_subtree(
            &self.right,
            &other.right,
        )
    }

    /// The least key in in-order: the key at the end of the left spine.
    pub fn left_most_key(&self) -> (k: K)
        requires
            total_order::<K>(),
        ensures
            k == self@.first(),
        decreases self,
    {
        match &self.left {
            Some(child) => child.left_most_key(),
            None => key_copy(&self.key),
        }
    }

    /// The last key in in-order: the key at the end of the right spine.
    pub fn right_most_key(&self) -> (k: K)
        requires
            total_order::<K>(),
        ensures
            k == self@.last(),
        decreases self,
    {
        match &self.right {
            Some(child) => child.right_most_key(),
            None => key_copy(&self.key),
        }
    }
}

} // verus!
