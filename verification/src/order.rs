//! The total order on keys that the tree is built on.

use core::cmp::Ordering;
use vstd::laws_cmp::obeys_cmp;
use vstd::laws_eq::obeys_concrete_eq;
use vstd::prelude::*;
use vstd::std_specs::cmp::PartialOrdSpec;
use vstd::std_specs::cmp::OrdSpec;

verus! {

/// A clone of a key is that key.
pub open spec fn clone_is_same<K: Clone>() -> bool {
    forall|a: K, b: K| #[trigger] cloned(a, b) ==> a == b
}

/// The key type compares as a total order, its executable comparisons agree
/// with the order used in contracts, equal keys are the same value, and a
/// clone of a key is that key.
pub open spec fn total_order<K: Ord + Clone>() -> bool {
    &&& obeys_cmp::<K>()
    &&& obeys_concrete_eq::<K>()
    &&& clone_is_same::<K>()
}

/// The integer types are totally ordered keys.
pub proof fn lemma_integers_total_order()
    ensures
        total_order::<u8>(),
        total_order::<u16>(),
        total_order::<u32>(),
        total_order::<u64>(),
        total_order::<u128>(),
        total_order::<usize>(),
        total_order::<i8>(),
        total_order::<i16>(),
        total_order::<i32>(),
        total_order::<i64>(),
        total_order::<i128>(),
        total_order::<isize>(),
{
    broadcast use vstd::laws_cmp::group_laws_cmp;
    broadcast use vstd::laws_eq::group_laws_eq;
}

/// `a` is strictly below `b` in the key order.
pub open spec fn lt<K: Ord>(a: K, b: K) -> bool {
    a.partial_cmp_spec(&b) == Some(Ordering::Less)
}

/// `a` is below or equal to `b` in the key order.
pub open spec fn le<K: Ord>(a: K, b: K) -> bool {
    lt(a, b) || a == b
}

/// Of two keys exactly one holds: the first is below the second, they are the
/// same key, or the second is below the first.
pub proof fn lemma_trichotomy<K: Ord + Clone>(a: K, b: K)
    requires
        total_order::<K>(),
    ensures
        lt(a, b) || a == b || lt(b, a),
        !(lt(a, b) && a == b),
        !(lt(b, a) && a == b),
        !(lt(a, b) && lt(b, a)),
{
    reveal(vstd::laws_cmp::obeys_partial_cmp_spec_properties);
    reveal(vstd::laws_cmp::obeys_cmp_partial_ord);
    reveal(vstd::laws_cmp::obeys_cmp_ord);
    reveal(vstd::laws_eq::obeys_concrete_eq);
    reveal(vstd::laws_eq::obeys_eq_spec_properties);
    assert(a.partial_cmp_spec(&b) == Some(a.cmp_spec(&b)));
    assert(b.partial_cmp_spec(&a) == Some(b.cmp_spec(&a)));
}

/// What is below a key is below everything above that key.
pub proof fn lemma_lt_transitive<K: Ord + Clone>(a: K, b: K, c: K)
    requires
        total_order::<K>(),
        lt(a, b),
        lt(b, c),
    ensures
        lt(a, c),
{
    reveal(vstd::laws_cmp::obeys_partial_cmp_spec_properties);
}

/// Whether two keys are the same.
pub fn key_eq<K: Ord + Clone>(a: &K, b: &K) -> (r: bool)
    requires
        total_order::<K>(),
    ensures
        r == (*a == *b),
{
    proof {
        reveal(vstd::laws_eq::obeys_concrete_eq);
    }
    *a == *b
}

/// Whether `a` is strictly below `b`.
pub fn key_lt<K: Ord + Clone>(a: &K, b: &K) -> (r: bool)
    requires
        total_order::<K>(),
    ensures
        r == lt(*a, *b),
{
    proof {
        reveal(vstd::laws_cmp::obeys_cmp_partial_ord);
    }
    *a < *b
}

/// A copy of a key.
pub fn key_copy<K: Ord + Clone>(a: &K) -> (r: K)
    requires
        total_order::<K>(),
    ensures
        r == *a,
{
    let r = a.clone();
    assert(cloned(*a, r));
    r
}

/// The sequence is in non-decreasing key order.
pub open spec fn sorted<K: Ord>(s: Seq<K>) -> bool {
    forall|i: int, j: int| 0 <= i < j < s.len() ==> le(s[i], s[j])
}

/// No key of `s` is above `k`.
pub open spec fn all_le<K: Ord>(s: Seq<K>, k: K) -> bool {
    forall|x: K| s.contains(x) ==> le(x, k)
}

/// No key of `s` is below `k`.
pub open spec fn all_ge<K: Ord>(s: Seq<K>, k: K) -> bool {
    forall|x: K| s.contains(x) ==> le(k, x)
}

/// What is not above a key is not above anything that the key is not above.
pub proof fn lemma_le_transitive<K: Ord + Clone>(a: K, b: K, c: K)
    requires
        total_order::<K>(),
        le(a, b),
        le(b, c),
    ensures
        le(a, c),
{
    if lt(a, b) && lt(b, c) {
        lemma_lt_transitive(a, b, c);
    }
}

/// A sequence with `k` somewhere in it is sorted exactly when the part before
/// `k` and the part after it are sorted, nothing before `k` is above it and
/// nothing after it is below it.
pub proof fn lemma_sorted_around<K: Ord + Clone>(a: Seq<K>, k: K, b: Seq<K>)
    requires
        total_order::<K>(),
    ensures
        sorted(a.push(k) + b) <==> (sorted(a) && sorted(b) && all_le(a, k) && all_ge(b, k)),
{
    let s = a.push(k) + b;
    let n = a.len() as int;
    if sorted(s) {
        assert forall|i: int, j: int| 0 <= i < j < a.len() implies le(a[i], a[j]) by {
            assert(s[i] == a[i] && s[j] == a[j]);
        }
        assert forall|i: int, j: int| 0 <= i < j < b.len() implies le(b[i], b[j]) by {
            assert(s[n + 1 + i] == b[i] && s[n + 1 + j] == b[j]);
        }
        assert forall|x: K| a.contains(x) implies le(x, k) by {
            let i = choose|i: int| 0 <= i < a.len() && a[i] == x;
            assert(s[i] == x && s[n] == k);
        }
        assert forall|x: K| b.contains(x) implies le(k, x) by {
            let i = choose|i: int| 0 <= i < b.len() && b[i] == x;
            assert(s[n + 1 + i] == x && s[n] == k);
        }
    }
    if sorted(a) && sorted(b) && all_le(a, k) && all_ge(b, k) {
        assert forall|i: int, j: int| 0 <= i < j < s.len() implies le(s[i], s[j]) by {
            if i < n {
                assert(s[i] == a[i]);
                assert(a.contains(a[i]));
            }
            if j < n {
                assert(s[j] == a[j]);
            }
            if i > n {
                assert(s[i] == b[i - n - 1]);
            }
            if j > n {
                assert(s[j] == b[j - n - 1]);
                assert(b.contains(b[j - n - 1]));
            }
            assert(s[n] == k);
            if i < n && j > n {
                lemma_le_transitive(s[i], k, s[j]);
            }
        }
    }
}

} // verus!
