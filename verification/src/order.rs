//! The total order on payload values, as the containers of this crate use it.

use vstd::prelude::*;
use vstd::std_specs::cmp::PartialOrdSpec;
use vstd::std_specs::cmp::OrdSpec;
use core::cmp::Ordering;

verus! {

/// `T`'s comparison operators implement a total order whose equality is
/// equality of values.
pub open spec fn total_order<T: Ord>() -> bool {
    &&& vstd::laws_cmp::obeys_cmp::<T>()
    &&& vstd::laws_eq::obeys_concrete_eq::<T>()
}

/// `a` is strictly below `b`.
pub open spec fn lt<T: Ord>(a: T, b: T) -> bool {
    a.partial_cmp_spec(&b) == Some(Ordering::Less)
}

/// `a` is below or equal to `b`.
pub open spec fn le<T: Ord>(a: T, b: T) -> bool {
    lt(a, b) || a == b
}

/// The position just behind the last value of `s` that is not above `e`: in a
/// sorted sequence, where `e` goes so that it follows the values equal to it.
pub open spec fn rank_after<T: Ord>(s: Seq<T>, e: T) -> int
    decreases s.len(),
{
    if s.len() == 0 {
        0
    } else if lt(e, s.last()) {
        rank_after(s.drop_last(), e)
    } else {
        s.len() as int
    }
}

/// `s` is in non-decreasing order.
pub open spec fn sorted<T: Ord>(s: Seq<T>) -> bool {
    forall|a: int, b: int| 0 <= a < b < s.len() ==> le(#[trigger] s[a], #[trigger] s[b])
}

/// Irreflexivity, asymmetry and totality of `lt`.
pub proof fn lemma_trichotomy<T: Ord>(a: T, b: T)
    requires
        total_order::<T>(),
    ensures
        lt(a, b) || a == b || lt(b, a),
        !(lt(a, b) && lt(b, a)),
        !(lt(a, b) && a == b),
        le(a, b) <==> !lt(b, a),
{
    reveal(vstd::laws_cmp::obeys_cmp_partial_ord);
    reveal(vstd::laws_cmp::obeys_cmp_ord);
    reveal(vstd::laws_cmp::obeys_partial_cmp_spec_properties);
    reveal(vstd::laws_eq::obeys_concrete_eq);
    assert(a.partial_cmp_spec(&b) == Some(a.cmp_spec(&b)));
    assert(b.partial_cmp_spec(&a) == Some(b.cmp_spec(&a)));
    assert(a.partial_cmp_spec(&a) == Some(a.cmp_spec(&a)));
}

/// Transitivity of the order, in the mixed forms that the containers need.
pub proof fn lemma_transitive<T: Ord>(a: T, b: T, c: T)
    requires
        total_order::<T>(),
    ensures
        lt(a, b) && lt(b, c) ==> lt(a, c),
        lt(a, b) && le(b, c) ==> lt(a, c),
        le(a, b) && lt(b, c) ==> lt(a, c),
        le(a, b) && le(b, c) ==> le(a, c),
{
    reveal(vstd::laws_cmp::obeys_cmp_partial_ord);
    reveal(vstd::laws_cmp::obeys_cmp_ord);
    reveal(vstd::laws_cmp::obeys_partial_cmp_spec_properties);
    reveal(vstd::laws_eq::obeys_concrete_eq);
    if lt(a, b) && lt(b, c) {
        assert(a.partial_cmp_spec(&b) == Some(Ordering::Less));
        assert(b.partial_cmp_spec(&c) == Some(Ordering::Less));
        assert(a.partial_cmp_spec(&c) == Some(Ordering::Less));
    }
}

/// A position that parts the values not above `e` from those above it is
/// `rank_after(s, e)`.
pub proof fn lemma_rank_after<T: Ord>(s: Seq<T>, e: T, g: int)
    requires
        total_order::<T>(),
        0 <= g <= s.len(),
        forall|k: int| 0 <= k < g ==> le(#[trigger] s[k], e),
        forall|k: int| g <= k < s.len() ==> lt(e, #[trigger] s[k]),
    ensures
        rank_after(s, e) == g,
    decreases s.len(),
{
    if s.len() > 0 {
        if g == s.len() {
            lemma_trichotomy(s.last(), e);
        } else {
            let t = s.drop_last();
            assert forall|k: int| 0 <= k < g implies le(#[trigger] t[k], e) by {
                assert(t[k] == s[k]);
            }
            assert forall|k: int| g <= k < t.len() implies lt(e, #[trigger] t[k]) by {
                assert(t[k] == s[k]);
            }
            lemma_rank_after(t, e, g);
        }
    }
}

/// In a sorted sequence, taking out any one occurrence of `e` leaves what
/// taking out the first one leaves.
pub proof fn lemma_remove_any<T: Ord>(s: Seq<T>, e: T, i: int)
    requires
        total_order::<T>(),
        sorted(s),
        0 <= i < s.len(),
        s[i] == e,
    ensures
        s.contains(e),
        s.remove(i) == s.remove_value(e),
{
    s.index_of_first_ensures(e);
    let f = s.index_of_first(e).unwrap();
    assert(f <= i);
    assert forall|k: int| f <= k <= i implies s[k] == e by {
        if f < k < i {
            lemma_trichotomy(s[f], s[k]);
            lemma_trichotomy(s[k], s[i]);
        }
    }
    assert(s.remove(i) =~= s.remove(f));
}

/// Taking a value out of a sorted sequence leaves it sorted.
pub proof fn lemma_remove_sorted<T: Ord>(s: Seq<T>, i: int)
    requires
        sorted(s),
        0 <= i < s.len(),
    ensures
        sorted(s.remove(i)),
{
    let t = s.remove(i);
    assert forall|a: int, b: int| 0 <= a < b < t.len() implies le(#[trigger] t[a], #[trigger] t[b]) by {
        let a0 = if a < i { a } else { a + 1 };
        let b0 = if b < i { b } else { b + 1 };
        assert(t[a] == s[a0]);
        assert(t[b] == s[b0]);
    }
}

/// Executable test for `lt`.
pub fn less<T: Ord>(a: &T, b: &T) -> (r: bool)
    requires
        total_order::<T>(),
    ensures
        r == lt(*a, *b),
{
    proof {
        reveal(vstd::laws_cmp::obeys_cmp_partial_ord);
    }
    *a < *b
}

/// Executable test for equality of values.
pub fn same<T: Ord>(a: &T, b: &T) -> (r: bool)
    requires
        total_order::<T>(),
    ensures
        r == (*a == *b),
{
    proof {
        reveal(vstd::laws_eq::obeys_concrete_eq);
    }
    *a == *b
}

/// The integer types obey `total_order`.
pub proof fn lemma_integers_total_order()
    ensures
        total_order::<u8>(),
        total_order::<u16>(),
        total_order::<u32>(),
        total_order::<u64>(),
        total_order::<u128>(),
        total_order::<usize>(),
        total_order::<i8>(),
        total_order::<i16>(),
        total_order::<i32>(),
        total_order::<i64>(),
        total_order::<i128>(),
        total_order::<isize>(),
{
    broadcast use vstd::laws_cmp::group_laws_cmp;
    broadcast use vstd::laws_eq::group_laws_eq;
}

} // verus!
