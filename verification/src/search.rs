//! Where a search ends in a tree whose keys are in order.

use crate::node::inorder;
use crate::node::lemma_view_contains;
use crate::node::Node;
use crate::order::le;
use crate::order::lemma_lt_transitive;
use crate::order::lemma_sorted_around;
use crate::order::lemma_trichotomy;
use crate::order::lt;
use crate::order::sorted;
use crate::order::total_order;
use vstd::prelude::*;

verus! {

/// In a tree whose keys are in order, the search for a key that occurs in the
/// tree ends at a node that holds it.
pub proof fn lemma_search_finds_present<K: Ord + Clone>(node: Node<K>, key: K)
    requires
        total_order::<K>(),
        sorted(node@),
        node@.contains(key),
    ensures
        node.search_end(key) == key,
    decreases node,
{
    let nl = inorder(node.left);
    let nr = inorder(node.right);
    lemma_sorted_around(nl, node.key, nr);
    lemma_view_contains(node, key);
    lemma_trichotomy(key, node.key);
    if key == node.key {
    } else if lt(key, node.key) {
        assert(!nr.contains(key));
        match node.left {
            Some(child) => {
                lemma_search_finds_present(*child, key);
                child.lemma_search_index_in_range(key);
            },
            None => {},
        }
    } else {
        assert(!nl.contains(key));
        match node.right {
            Some(child) => {
                lemma_search_finds_present(*child, key);
                child.lemma_search_index_in_range(key);
            },
            None => {},
        }
    }
}

/// The search for a key that does not occur in the tree ends next to the
/// place where the key would stand in in-order: at a node whose key is below
/// `key` and whose in-order follower, if any, is above it; or at a node whose
/// key is above `key` and whose in-order forerunner, if any, is below it.
pub proof fn lemma_search_ends_beside<K: Ord + Clone>(node: Node<K>, key: K)
    requires
        total_order::<K>(),
        !node@.contains(key),
    ensures
        ({
            let i = node.search_index(key);
            &&& 0 <= i < node@.len()
            &&& {
                ||| lt(node@[i], key) && (i + 1 < node@.len() ==> lt(key, node@[i + 1]))
                ||| lt(key, node@[i]) && (i > 0 ==> lt(node@[i - 1], key))
            }
        }),
    decreases node,
{
    let nl = inorder(node.left);
    lemma_view_contains(node, key);
    lemma_trichotomy(key, node.key);
    node.lemma_search_index_in_range(key);
    if lt(key, node.key) {
        match node.left {
            Some(child) => {
                lemma_search_ends_beside(*child, key);
                let j = child.search_index(key);
                assert(node@[j] == child@[j]);
                if j + 1 < child@.len() {
                    assert(node@[j + 1] == child@[j + 1]);
                } else {
                    assert(node@[j + 1] == node.key);
                }
                if j > 0 {
                    assert(node@[j - 1] == child@[j - 1]);
                }
            },
            None => {},
        }
    } else {
        match node.right {
            Some(child) => {
                lemma_search_ends_beside(*child, key);
                let j = child.search_index(key);
                let i = nl.len() + 1 + j;
                assert(node@[i] == child@[j]);
                if j + 1 < child@.len() {
                    assert(node@[i + 1] == child@[j + 1]);
                }
                if j > 0 {
                    assert(node@[i - 1] == child@[j - 1]);
                } else {
                    assert(node@[i - 1] == node.key);
                }
            },
            None => {},
        }
    }
}

/// `p` is the greatest key of `s` below `key`.
pub open spec fn is_predecessor<K: Ord>(s: Seq<K>, key: K, p: K) -> bool {
    &&& s.contains(p)
    &&& lt(p, key)
    &&& forall|x: K| s.contains(x) && lt(x, key) ==> le(x, p)
}

/// `q` is the least key of `s` above `key`.
pub open spec fn is_successor<K: Ord>(s: Seq<K>, key: K, q: K) -> bool {
    &&& s.contains(q)
    &&& lt(key, q)
    &&& forall|x: K| s.contains(x) && lt(key, x) ==> le(q, x)
}

/// In a tree whose keys are in order, the search for a key that does not
/// occur in the tree ends at the greatest key below it or at the least key
/// above it.
pub proof fn lemma_search_ends_at_neighbour<K: Ord + Clone>(node: Node<K>, key: K)
    requires
        total_order::<K>(),
        sorted(node@),
        !node@.contains(key),
    ensures
        is_predecessor(node@, key, node.search_end(key)) || is_successor(
            node@,
            key,
            node.search_end(key),
        ),
{
    let s = node@;
    let i = node.search_index(key);
    lemma_search_ends_beside(node, key);
    let e = s[i];
    lemma_trichotomy(e, key);
    assert(s.contains(e));
    if lt(e, key) {
        assert forall|x: K| s.contains(x) && lt(x, key) implies le(x, e) by {
            let m = choose|m: int| 0 <= m < s.len() && s[m] == x;
            if m > i {
                lemma_trichotomy(x, key);
                if m > i + 1 {
                    assert(le(s[i + 1], s[m]));
                }
                lemma_trichotomy(s[i + 1], x);
                if lt(s[i + 1], x) {
                    lemma_lt_transitive(key, s[i + 1], x);
                }
            } else if m < i {
                assert(le(s[m], s[i]));
            }
        }
    } else {
        assert forall|x: K| s.contains(x) && lt(key, x) implies le(e, x) by {
            let m = choose|m: int| 0 <= m < s.len() && s[m] == x;
            if m < i {
                lemma_trichotomy(x, key);
                if m < i - 1 {
                    assert(le(s[m], s[i - 1]));
                }
                lemma_trichotomy(x, s[i - 1]);
                if lt(x, s[i - 1]) {
                    lemma_lt_transitive(x, s[i - 1], key);
                }
            } else if m > i {
                assert(le(s[i], s[m]));
            }
        }
    }
}

} // verus!
