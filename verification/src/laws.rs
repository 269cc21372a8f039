//! What holds of the operations taken together.

use crate::node::inorder;
use crate::node::Node;
use crate::node::SplayNode;
use crate::order::le;
use crate::order::sorted;
use crate::order::total_order;
use crate::search::is_predecessor;
use crate::search::is_successor;
use crate::search::lemma_search_ends_at_neighbour;
use crate::search::lemma_search_finds_present;
use crate::splay::lemma_splay_whole;
use crate::splay::splayed;
use crate::tree::deleted;
use crate::tree::lemma_deleted_absent;
use crate::tree::lemma_deleted_present;
use crate::tree::lemma_deleted_sorted;
use crate::tree::lemma_tree_inserted;
use crate::tree::lemma_without_left_most;
use crate::tree::tree_inserted;
use crate::tree::tree_popped;
use vstd::prelude::*;

verus! {

/// One operation on a tree.
pub enum Step<K> {
    /// Insert a node with this key and no children.
    Insert(K),
    /// Delete this key.
    Delete(K),
    /// Splay for this key.
    Splay(K),
    /// Take the left-most node out.
    PopLeftMost,
}

/// The tree that one operation makes of `t`.
pub open spec fn after<K: Ord + Clone>(t: SplayNode<K>, step: Step<K>) -> SplayNode<K> {
    match step {
        Step::Insert(key) => tree_inserted(t, Node::leaf(key)),
        Step::Delete(key) => deleted(t, key),
        Step::Splay(key) => splayed(t, key),
        Step::PopLeftMost => tree_popped(t),
    }
}

/// The tree that a sequence of operations, from first to last, makes of `t`.
pub open spec fn after_all<K: Ord + Clone>(t: SplayNode<K>, steps: Seq<Step<K>>) -> SplayNode<K>
    decreases steps.len(),
{
    if steps.len() == 0 {
        t
    } else {
        after(after_all(t, steps.drop_last()), steps.last())
    }
}

/// The tree that inserting `keys`, from first to last, makes of `t`.
pub open spec fn inserted_all<K: Ord + Clone>(t: SplayNode<K>, keys: Seq<K>) -> SplayNode<K>
    decreases keys.len(),
{
    if keys.len() == 0 {
        t
    } else {
        tree_inserted(inserted_all(t, keys.drop_last()), Node::leaf(keys.last()))
    }
}

/// A splay keeps the in-order sequence of the keys.
pub proof fn lemma_splay_keeps_keys<K: Ord + Clone>(t: SplayNode<K>, key: K)
    requires
        total_order::<K>(),
    ensures
        inorder(splayed(t, key)) == inorder(t),
{
    if let Some(root) = t {
        lemma_splay_whole(*root, key);
    }
}

/// Taking the left-most node out takes the first key away and leaves the
/// others as they are: the tree has one node less.
pub proof fn lemma_pop_takes_first<K>(t: SplayNode<K>)
    requires
        t is Some,
    ensures
        inorder(tree_popped(t)) == inorder(t).drop_first(),
        inorder(tree_popped(t)).len() == inorder(t).len() - 1,
{
    lemma_without_left_most(*t.unwrap());
}

/// No operation disturbs the key order.
pub proof fn lemma_step_keeps_order<K: Ord + Clone>(t: SplayNode<K>, step: Step<K>)
    requires
        total_order::<K>(),
        sorted(inorder(t)),
    ensures
        sorted(inorder(after(t, step))),
{
    match step {
        Step::Insert(key) => {
            lemma_tree_inserted(t, key);
        },
        Step::Delete(key) => {
            lemma_deleted_sorted(t, key);
        },
        Step::Splay(key) => {
            lemma_splay_keeps_keys(t, key);
        },
        Step::PopLeftMost => {
            if t is Some {
                lemma_pop_takes_first(t);
                let s = inorder(t);
                assert forall|i: int, j: int| 0 <= i < j < s.drop_first().len() implies le(
                    s.drop_first()[i],
                    s.drop_first()[j],
                ) by {
                    assert(s.drop_first()[i] == s[i + 1] && s.drop_first()[j] == s[j + 1]);
                }
            }
        },
    }
}

/// Every tree that a sequence of operations makes of the empty tree has its
/// keys in non-decreasing order from left to right.
pub proof fn lemma_order_invariant<K: Ord + Clone>(steps: Seq<Step<K>>)
    requires
        total_order::<K>(),
    ensures
        sorted(inorder(after_all(None, steps))),
    decreases steps.len(),
{
    if steps.len() == 0 {
        assert(inorder::<K>(None) == Seq::<K>::empty());
    } else {
        lemma_order_invariant(steps.drop_last());
        lemma_step_keeps_order(after_all(None, steps.drop_last()), steps.last());
    }
}

/// In a tree in key order, a splay for a key that occurs in the tree brings
/// that key to the root.
pub proof fn lemma_splay_present_key<K: Ord + Clone>(t: SplayNode<K>, key: K)
    requires
        total_order::<K>(),
        sorted(inorder(t)),
        inorder(t).contains(key),
    ensures
        splayed(t, key) is Some,
        splayed(t, key).unwrap().key == key,
{
    match t {
        None => {
            assert(inorder::<K>(None) == Seq::<K>::empty());
        },
        Some(root) => {
            lemma_splay_whole(*root, key);
            lemma_search_finds_present(*root, key);
        },
    }
}

/// In a non-empty tree in key order, a splay for a key that does not occur
/// in the tree brings to the root the greatest key below it or the least key
/// above it.
pub proof fn lemma_splay_absent_key<K: Ord + Clone>(t: SplayNode<K>, key: K)
    requires
        total_order::<K>(),
        sorted(inorder(t)),
        t is Some,
        !inorder(t).contains(key),
    ensures
        splayed(t, key) is Some,
        ({
            let top = splayed(t, key).unwrap().key;
            is_predecessor(inorder(t), key, top) || is_successor(inorder(t), key, top)
        }),
{
    let root = t.unwrap();
    lemma_splay_whole(*root, key);
    lemma_search_ends_at_neighbour(*root, key);
}

/// Deleting a key that occurs in a tree in key order and inserting it again
/// gives a tree with as many nodes and with the same keys, each as often as
/// before.
pub proof fn lemma_delete_then_insert<K: Ord + Clone>(t: SplayNode<K>, key: K)
    requires
        total_order::<K>(),
        sorted(inorder(t)),
        inorder(t).contains(key),
    ensures
        ({
            let again = tree_inserted(deleted(t, key), Node::leaf(key));
            &&& inorder(again).len() == inorder(t).len()
            &&& inorder(again).to_multiset() == inorder(t).to_multiset()
        }),
{
    lemma_deleted_present(t, key);
    lemma_tree_inserted(deleted(t, key), key);
    inorder(t).to_multiset_ensures();
    assert(inorder(t).to_multiset().remove(key).insert(key) =~= inorder(t).to_multiset());
}

/// Deleting a key that does not occur in the tree leaves every key in the
/// tree, as often as before.
pub proof fn lemma_delete_absent_key<K: Ord + Clone>(t: SplayNode<K>, key: K)
    requires
        total_order::<K>(),
        !inorder(t).contains(key),
    ensures
        inorder(deleted(t, key)).to_multiset() == inorder(t).to_multiset(),
{
    lemma_deleted_absent(t, key);
}

/// Keys inserted one after another into a tree in key order give a tree in
/// key order that holds, beside the keys it had, every inserted key as often
/// as it was inserted. Taking such a tree apart from left to right therefore
/// yields every key once for each time it was put in, in non-decreasing
/// order.
pub proof fn lemma_inserted_keys<K: Ord + Clone>(t: SplayNode<K>, keys: Seq<K>)
    requires
        total_order::<K>(),
        sorted(inorder(t)),
    ensures
        sorted(inorder(inserted_all(t, keys))),
        inorder(inserted_all(t, keys)).to_multiset() == inorder(t).to_multiset().add(
            keys.to_multiset(),
        ),
    decreases keys.len(),
{
    broadcast use vstd::seq_lib::group_to_multiset_ensures;

    if keys.len() == 0 {
        assert(keys =~= Seq::<K>::empty());
        assert(inorder(t).to_multiset().add(keys.to_multiset()) =~= inorder(t).to_multiset());
    } else {
        let front = keys.drop_last();
        lemma_inserted_keys(t, front);
        lemma_tree_inserted(inserted_all(t, front), keys.last());
        assert(keys =~= front.push(keys.last()));
        assert(inorder(t).to_multiset().add(front.to_multiset()).insert(keys.last())
            =~= inorder(t).to_multiset().add(keys.to_multiset()));
    }
}

} // verus!
