//! What the sorting routines promise: the elements stay the same, and they
//! come out in the order of the comparison.

use vstd::prelude::*;

verus! {

/// `leq` says what `compare` answers: whatever `compare` returns on `(a, b)`
/// is `leq(a, b)`.
pub open spec fn answers<T, F: Fn(&T, &T) -> bool>(compare: F, leq: spec_fn(T, T) -> bool) -> bool {
    forall|a: T, b: T, r: bool| #[trigger] call_ensures(compare, (&a, &b), r) ==> r == leq(a, b)
}

/// `compare` may be called on any two values.
pub open spec fn callable<T, F: Fn(&T, &T) -> bool>(compare: F) -> bool {
    forall|a: T, b: T| #[trigger] call_requires(compare, (&a, &b))
}

/// `leq` is total and transitive.
pub open spec fn total_preorder<T>(leq: spec_fn(T, T) -> bool) -> bool {
    &&& forall|a: T, b: T| #[trigger] leq(a, b) || leq(b, a)
    &&& forall|a: T, b: T, c: T| #[trigger] leq(a, b) && #[trigger] leq(b, c) ==> leq(a, c)
}

/// `elems` is non-decreasing under `leq`: every element precedes the
/// elements behind it.
pub open spec fn sorted_by<T>(elems: Seq<T>, leq: spec_fn(T, T) -> bool) -> bool {
    forall|i: int, j: int|
        0 <= i < j < elems.len() ==> leq(#[trigger] elems[i], #[trigger] elems[j])
}

/// The elements before `upto` precede the elements behind them.
pub open spec fn settled<T>(elems: Seq<T>, leq: spec_fn(T, T) -> bool, upto: int) -> bool {
    forall|p: int, q: int|
        0 <= p < upto && p < q < elems.len() ==> leq(#[trigger] elems[p], #[trigger] elems[q])
}

/// The element at `at` precedes the elements behind `from`.
pub open spec fn leads<T>(elems: Seq<T>, leq: spec_fn(T, T) -> bool, at: int, from: int) -> bool {
    forall|q: int| from < q < elems.len() ==> leq(elems[at], #[trigger] elems[q])
}

/// Cloning a `T` gives a value equal to the one that was cloned.
pub open spec fn clone_is_exact<T: Clone>() -> bool {
    forall|a: T, b: T| #[trigger] cloned::<T>(a, b) ==> a == b
}

/// Exchanging two elements keeps the elements.
pub proof fn lemma_swap_keeps_elements<T>(elems: Seq<T>, a: int, b: int)
    requires
        0 <= a < elems.len(),
        0 <= b < elems.len(),
    ensures
        elems.update(a, elems[b]).update(b, elems[a]).to_multiset() == elems.to_multiset(),
{
    let once = elems.update(a, elems[b]);
    if a == b {
        assert(once.update(b, elems[a]) =~= elems);
    } else {
        vstd::seq_lib::to_multiset_update(elems, a, elems[b]);
        vstd::seq_lib::to_multiset_update(once, b, elems[a]);
        elems.to_multiset_ensures();
        assert(elems.to_multiset().insert(elems[b]).remove(elems[a]).insert(elems[a]).remove(
            elems[b],
        ) =~= elems.to_multiset());
    }
}

/// Two arrangements of the same elements that are both non-decreasing under
/// a total order are the same sequence. So a list that is sorted already is
/// what a sorting routine returns on it.
pub proof fn lemma_sorted_arrangement_is_unique<T>(
    one: Seq<T>,
    other: Seq<T>,
    leq: spec_fn(T, T) -> bool,
)
    requires
        sorted_by(one, leq),
        sorted_by(other, leq),
        one.to_multiset() == other.to_multiset(),
        total_preorder(leq),
        forall|a: T, b: T| #[trigger] leq(a, b) && #[trigger] leq(b, a) ==> a == b,
    ensures
        one == other,
{
    assert(vstd::relations::sorted_by(one, leq)) by {
        assert forall|i: int, j: int| 0 <= i < j < one.len() implies #[trigger] leq(
            one[i],
            one[j],
        ) by {}
    }
    assert(vstd::relations::sorted_by(other, leq)) by {
        assert forall|i: int, j: int| 0 <= i < j < other.len() implies #[trigger] leq(
            other[i],
            other[j],
        ) by {}
    }
    assert(vstd::relations::total_ordering(leq)) by {
        assert forall|x: T| #[trigger] leq(x, x) by {
            assert(leq(x, x) || leq(x, x));
        }
    }
    vstd::seq_lib::lemma_sorted_unique(one, other, leq);
}

} // verus!
