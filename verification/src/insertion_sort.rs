//! Insertion sort over the list capability.

use std::fmt::Debug;
use vstd::prelude::*;

use crate::error::EnceladusError;
use crate::list::List;
use crate::sorting::{answers, callable, clone_is_exact, sorted_by, total_preorder};

verus! {

/// `elems` with the elements from `hole` up to `upto - 1` moved one position
/// up; the element at `hole` stays where it was as well.
pub open spec fn shifted<T>(elems: Seq<T>, hole: int, upto: int) -> Seq<T> {
    Seq::new(
        elems.len(),
        |k: int|
            if hole < k <= upto {
                elems[k - 1]
            } else {
                elems[k]
            },
    )
}

/// Sorts `list` in place by inserting each element into the sorted elements
/// before it.
///
/// For every position from the second on, the routine takes a copy of the
/// element, moves the elements before it one position up while
/// `compare(copy, predecessor)` holds, and puts the copy into the gap. Where
/// cloning a `T` gives an equal value, the elements stay the same, and when
/// `compare` decides a total and transitive relation, the list comes out
/// non-decreasing under it. A list of at most one element is left as it is.
pub fn insertion_sort<L, T, F>(list: &mut L, compare: F) -> (done: Result<(), EnceladusError>) where
    L: List<T>,
    T: Eq + Clone + Debug,
    F: Fn(&T, &T) -> bool,

    requires
        callable::<T, F>(compare),
    ensures
        done == Ok::<(), EnceladusError>(()),
        final(list)@.len() == old(list)@.len(),
        old(list)@.len() <= 1 ==> final(list)@ == old(list)@,
        clone_is_exact::<T>() ==> final(list)@.to_multiset() == old(list)@.to_multiset(),
        clone_is_exact::<T>() ==> forall|leq: spec_fn(T, T) -> bool| #[trigger]
            answers(compare, leq) && total_preorder(leq) ==> sorted_by(final(list)@, leq),
{
    let n: usize = list.length()?;
    if n <= 1 {
        return Ok(());
    }
    let mut j: usize = 1;
    proof {
        assert forall|leq: spec_fn(T, T) -> bool| #[trigger]
            answers(compare, leq) && total_preorder(leq) implies sorted_by(list@.take(1), leq) by {}
    }
    while j < n
        invariant
            1 <= j <= n,
            list@.len() == n,
            callable::<T, F>(compare),
            clone_is_exact::<T>() ==> list@.to_multiset() == old(list)@.to_multiset(),
            clone_is_exact::<T>() ==> forall|leq: spec_fn(T, T) -> bool| #[trigger]
                answers(compare, leq) && total_preorder(leq) ==> sorted_by(
                    list@.take(j as int),
                    leq,
                ),
        decreases n - j,
    {
        let ghost start = list@;
        let key: T = list.get(j)?.clone();
        let mut hole: usize = j;
        let mut shifting: bool = true;
        proof {
            assert(cloned::<T>(start[j as int], key));
            assert(shifted(start, j as int, j as int) =~= start);
        }
        while shifting && hole > 0
            invariant
                hole <= j < n,
                list@.len() == n,
                start.len() == n,
                callable::<T, F>(compare),
                clone_is_exact::<T>() ==> key == start[j as int],
                clone_is_exact::<T>() ==> list@ == shifted(start, hole as int, j as int),
                clone_is_exact::<T>() ==> forall|leq: spec_fn(T, T) -> bool| #[trigger]
                    answers(compare, leq) && total_preorder(leq) ==> {
                        &&& forall|k: int|
                            hole <= k < j ==> leq(start[j as int], #[trigger] start[k])
                        &&& (!shifting ==> hole > 0 && leq(start[hole - 1], start[j as int]))
                    },
            decreases hole + if shifting {
                1int
            } else {
                0int
            },
        {
            let prev = list.get(hole - 1)?;
            let ghost prev_value = *prev;
            if compare(&key, prev) {
                let copy = prev.clone();
                list.set(hole, copy)?;
                proof {
                    if clone_is_exact::<T>() {
                        assert(cloned::<T>(prev_value, copy));
                        assert(prev_value == start[hole - 1]);
                        assert(list@ =~= shifted(start, hole - 1, j as int));
                        assert forall|leq: spec_fn(T, T) -> bool| #[trigger]
                            answers(compare, leq) && total_preorder(leq) implies forall|k: int|
                            hole - 1 <= k < j ==> leq(start[j as int], #[trigger] start[k]) by {
                            assert(leq(key, prev_value));
                        }
                    }
                }
                hole -= 1;
            } else {
                proof {
                    if clone_is_exact::<T>() {
                        assert(prev_value == start[hole - 1]);
                        assert forall|leq: spec_fn(T, T) -> bool| #[trigger]
                            answers(compare, leq) && total_preorder(leq) implies leq(
                            start[hole - 1],
                            start[j as int],
                        ) by {
                            assert(!leq(key, prev_value));
                            assert(leq(key, prev_value) || leq(prev_value, key));
                        }
                    }
                }
                shifting = false;
            }
        }
        list.set(hole, key)?;
        proof {
            if clone_is_exact::<T>() {
                let placed = list@;
                let gathered = start.remove(j as int);
                assert(placed =~= gathered.insert(hole as int, start[j as int]));
                vstd::seq_lib::to_multiset_remove(start, j as int);
                vstd::seq_lib::to_multiset_insert(gathered, hole as int, start[j as int]);
                start.to_multiset_ensures();
                assert(placed.to_multiset() =~= start.to_multiset());
                assert forall|leq: spec_fn(T, T) -> bool| #[trigger]
                    answers(compare, leq) && total_preorder(leq) implies sorted_by(
                    placed.take(j + 1),
                    leq,
                ) by {
                    let sorted = start.take(j as int);
                    let grown = placed.take(j + 1);
                    assert(sorted_by(sorted, leq));
                    assert forall|p: int, q: int| 0 <= p < q < grown.len() implies leq(
                        #[trigger] grown[p],
                        #[trigger] grown[q],
                    ) by {
                        let from_p = if p < hole {
                            p
                        } else if p == hole {
                            j as int
                        } else {
                            p - 1
                        };
                        let from_q = if q < hole {
                            q
                        } else if q == hole {
                            j as int
                        } else {
                            q - 1
                        };
                        assert(grown[p] == start[from_p]);
                        assert(grown[q] == start[from_q]);
                        if q < hole || p > hole {
                            assert(leq(sorted[from_p], sorted[from_q]));
                        } else if p == hole {
                            assert(leq(start[j as int], start[from_q]));
                        } else if q == hole {
                            assert(leq(start[hole - 1], start[j as int]));
                            if p < hole - 1 {
                                assert(leq(sorted[p], sorted[hole - 1]));
                            }
                        } else {
                            assert(leq(sorted[from_p], sorted[from_q]));
                        }
                    }
                }
            }
        }
        j += 1;
    }
    proof {
        assert(list@.take(n as int) =~= list@);
    }
    Ok(())
}

} // verus!
