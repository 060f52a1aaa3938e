//! Sorted sequences with equal values: what the ordered containers of this
//! crate look like from outside, and the laws that their operations obey.

use vstd::prelude::*;
use vstd::multiset::Multiset;
use crate::order::{le, lemma_transitive, lemma_trichotomy, lt, rank_after, sorted, total_order};

verus! {

/// `s` with `e` put in behind the last value that is not above it.
pub open spec fn insert_sorted<T: Ord>(s: Seq<T>, e: T) -> Seq<T> {
    s.insert(rank_after(s, e), e)
}

/// The sequence that holds the values of `vals`, put in one after the other
/// with `insert_sorted`, starting from the empty sequence.
pub open spec fn insert_all<T: Ord>(vals: Seq<T>) -> Seq<T>
    decreases vals.len(),
{
    if vals.len() == 0 {
        Seq::empty()
    } else {
        insert_sorted(insert_all(vals.drop_last()), vals.last())
    }
}

/// What is left of `s` after one occurrence of each value of `gone` has been
/// taken out, in the order of `gone`; a value that `s` no longer holds is
/// passed over.
pub open spec fn remove_all<T>(s: Seq<T>, gone: Seq<T>) -> Seq<T>
    decreases gone.len(),
{
    if gone.len() == 0 {
        s
    } else {
        remove_all(s, gone.drop_last()).remove_value(gone.last())
    }
}

/// In a sorted sequence, `rank_after(s, e)` parts the values not above `e`
/// from the values above `e`.
pub proof fn lemma_rank_after_parts<T: Ord>(s: Seq<T>, e: T)
    requires
        total_order::<T>(),
        sorted(s),
    ensures
        0 <= rank_after(s, e) <= s.len(),
        forall|k: int| 0 <= k < rank_after(s, e) ==> le(#[trigger] s[k], e),
        forall|k: int| rank_after(s, e) <= k < s.len() ==> lt(e, #[trigger] s[k]),
    decreases s.len(),
{
    if s.len() > 0 {
        let t = s.drop_last();
        if lt(e, s.last()) {
            assert(sorted(t)) by {
                assert forall|a: int, b: int| 0 <= a < b < t.len() implies le(
                    #[trigger] t[a],
                    #[trigger] t[b],
                ) by {
                    assert(le(s[a], s[b]));
                }
            }
            lemma_rank_after_parts(t, e);
            assert forall|k: int| 0 <= k < rank_after(s, e) implies le(#[trigger] s[k], e) by {
                assert(le(t[k], e));
            }
            assert forall|k: int| rank_after(s, e) <= k < s.len() implies lt(
                e,
                #[trigger] s[k],
            ) by {
                if k < t.len() {
                    assert(lt(e, t[k]));
                }
            }
        } else {
            lemma_trichotomy(s.last(), e);
            assert forall|k: int| 0 <= k < s.len() implies le(#[trigger] s[k], e) by {
                if k < s.len() - 1 {
                    assert(le(s[k], s[s.len() - 1]));
                    lemma_transitive(s[k], s.last(), e);
                }
            }
        }
    }
}

/// Putting a value into a sorted sequence leaves it sorted and adds that
/// value, once, to what it holds.
pub proof fn lemma_insert_sorted<T: Ord>(s: Seq<T>, e: T)
    requires
        total_order::<T>(),
        sorted(s),
    ensures
        sorted(insert_sorted(s, e)),
        insert_sorted(s, e).to_multiset() == s.to_multiset().insert(e),
        insert_sorted(s, e).len() == s.len() + 1,
{
    let g = rank_after(s, e);
    let t = insert_sorted(s, e);
    lemma_rank_after_parts(s, e);
    vstd::seq_lib::to_multiset_insert(s, g, e);
    assert forall|a: int, b: int| 0 <= a < b < t.len() implies le(#[trigger] t[a], #[trigger] t[b]) by {
        if b < g {
            assert(le(s[a], s[b]));
        } else if b == g {
            assert(le(s[a], e));
        } else if a < g {
            assert(le(s[a], s[b - 1]));
        } else if a == g {
            assert(lt(e, s[b - 1]));
        } else {
            assert(le(s[a - 1], s[b - 1]));
        }
    }
}

/// Whatever values are put in, in whatever order, the result is sorted and
/// holds exactly those values, each as often as it was put in.
pub proof fn lemma_insert_all<T: Ord>(vals: Seq<T>)
    requires
        total_order::<T>(),
    ensures
        sorted(insert_all(vals)),
        insert_all(vals).to_multiset() == vals.to_multiset(),
        insert_all(vals).len() == vals.len(),
    decreases vals.len(),
{
    if vals.len() == 0 {
        assert(vals =~= Seq::<T>::empty());
    } else {
        let front = vals.drop_last();
        lemma_insert_all(front);
        lemma_insert_sorted(insert_all(front), vals.last());
        vstd::seq_lib::to_multiset_build(front, vals.last());
        assert(front.push(vals.last()) =~= vals);
    }
}

/// Taking out a value that the sequence does not hold changes nothing.
pub proof fn lemma_remove_absent<T>(s: Seq<T>, e: T)
    requires
        !s.contains(e),
    ensures
        s.remove_value(e) == s,
{
    s.index_of_first_ensures(e);
}

/// Taking out a value that the sequence holds takes one occurrence of it
/// from what the sequence holds.
pub proof fn lemma_remove_present<T>(s: Seq<T>, e: T)
    requires
        s.contains(e),
    ensures
        s.remove_value(e).to_multiset() == s.to_multiset().remove(e),
        s.remove_value(e).len() == s.len() - 1,
{
    s.index_of_first_ensures(e);
    let i = s.index_of_first(e).unwrap();
    vstd::seq_lib::to_multiset_remove(s, i);
}

/// Where `s` holds every value of `gone` at least as often as `gone` does,
/// `remove_all` takes exactly the values of `gone` out of it.
pub proof fn lemma_remove_all<T>(s: Seq<T>, gone: Seq<T>)
    requires
        gone.to_multiset().subset_of(s.to_multiset()),
    ensures
        remove_all(s, gone).to_multiset() == s.to_multiset().sub(gone.to_multiset()),
    decreases gone.len(),
{
    broadcast use vstd::multiset::group_multiset_axioms;

    if gone.len() == 0 {
        assert(gone.to_multiset() =~= Multiset::<T>::empty()) by {
            vstd::seq_lib::to_multiset_len(gone);
            vstd::multiset::lemma_multiset_empty_len(gone.to_multiset());
        }
        assert(s.to_multiset().sub(gone.to_multiset()) =~= s.to_multiset());
    } else {
        let front = gone.drop_last();
        let v = gone.last();
        vstd::seq_lib::to_multiset_build(front, v);
        assert(front.push(v) =~= gone);
        assert(gone.to_multiset() =~= front.to_multiset().insert(v));
        assert(front.to_multiset().subset_of(s.to_multiset())) by {
            assert forall|x: T| front.to_multiset().count(x) <= s.to_multiset().count(x) by {
                assert(gone.to_multiset().count(x) <= s.to_multiset().count(x));
            }
        }
        lemma_remove_all(s, front);
        let t = remove_all(s, front);
        assert(gone.to_multiset().count(v) <= s.to_multiset().count(v));
        assert(t.to_multiset().count(v) > 0);
        vstd::seq_lib::to_multiset_contains(t, v);
        lemma_remove_present(t, v);
        assert(t.to_multiset().remove(v) =~= s.to_multiset().sub(gone.to_multiset()));
    }
}

/// Putting values in and then taking each of them out again, in any order,
/// leaves nothing.
pub proof fn lemma_round_trip<T: Ord>(vals: Seq<T>, gone: Seq<T>)
    requires
        total_order::<T>(),
        gone.to_multiset() == vals.to_multiset(),
    ensures
        remove_all(insert_all(vals), gone) == Seq::<T>::empty(),
{
    broadcast use vstd::multiset::group_multiset_axioms;

    let s = insert_all(vals);
    lemma_insert_all(vals);
    assert(gone.to_multiset().subset_of(s.to_multiset()));
    lemma_remove_all(s, gone);
    let r = remove_all(s, gone);
    assert(r.to_multiset() =~= Multiset::<T>::empty());
    vstd::seq_lib::to_multiset_len(r);
    assert(r =~= Seq::<T>::empty());
}

} // verus!
