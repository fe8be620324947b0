//! Bubble sort over the list capability.

use std::fmt::Debug;
use vstd::prelude::*;

use crate::error::EnceladusError;
use crate::list::List;
use crate::sorting::{
    answers, callable, leads, lemma_swap_keeps_elements, settled, sorted_by, total_preorder,
};

verus! {

/// Sorts `list` in place by exchanging elements.
///
/// For every position from the first on, the routine walks from the end of
/// the list down to the position behind it and exchanges the two elements
/// whenever `compare(later, earlier)` holds. The elements stay the same. When
/// `compare` decides a total and transitive relation, the list comes out
/// non-decreasing under it. A list of at most one element is left as it is.
pub fn bubblesort<L, T, F>(list: &mut L, compare: F) -> (done: Result<(), EnceladusError>) where
    L: List<T>,
    T: Eq + Clone + Debug,
    F: Fn(&T, &T) -> bool,

    requires
        callable::<T, F>(compare),
    ensures
        done == Ok::<(), EnceladusError>(()),
        final(list)@.len() == old(list)@.len(),
        final(list)@.to_multiset() == old(list)@.to_multiset(),
        old(list)@.len() <= 1 ==> final(list)@ == old(list)@,
        forall|leq: spec_fn(T, T) -> bool| #[trigger]
            answers(compare, leq) && total_preorder(leq) ==> sorted_by(final(list)@, leq),
{
    let n: usize = list.length()?;
    if n <= 1 {
        return Ok(());
    }
    let mut i: usize = 0;
    while i < n
        invariant
            i <= n,
            list@.len() == n,
            callable::<T, F>(compare),
            list@.to_multiset() == old(list)@.to_multiset(),
            forall|leq: spec_fn(T, T) -> bool| #[trigger]
                answers(compare, leq) && total_preorder(leq) ==> settled(list@, leq, i as int),
        decreases n - i,
    {
        let mut j: usize = n - 1;
        while j > i
            invariant
                i <= j < n,
                list@.len() == n,
                callable::<T, F>(compare),
                list@.to_multiset() == old(list)@.to_multiset(),
                forall|leq: spec_fn(T, T) -> bool| #[trigger]
                    answers(compare, leq) && total_preorder(leq) ==> settled(list@, leq, i as int)
                        && leads(list@, leq, i as int, j as int),
            decreases j,
        {
            let ghost before = list@;
            let later = list.get(j)?;
            let earlier = list.get(i)?;
            let exchange = compare(later, earlier);
            if exchange {
                list.swap(i, j)?;
                proof {
                    lemma_swap_keeps_elements(before, i as int, j as int);
                }
            }
            proof {
                let after = list@;
                assert forall|leq: spec_fn(T, T) -> bool| #[trigger]
                    answers(compare, leq) && total_preorder(leq) implies settled(
                    after,
                    leq,
                    i as int,
                ) && leads(after, leq, i as int, j - 1) by {
                    assert(settled(before, leq, i as int) && leads(before, leq, i as int, j as int));
                    assert(exchange == leq(before[j as int], before[i as int]));
                    assert forall|p: int, q: int| 0 <= p < i && p < q < after.len() implies leq(
                        #[trigger] after[p],
                        #[trigger] after[q],
                    ) by {
                        assert(after[p] == before[p]);
                        if q == i {
                            assert(leq(before[p], before[if exchange {
                                j as int
                            } else {
                                i as int
                            }]));
                        } else if q == j {
                            assert(leq(before[p], before[if exchange {
                                i as int
                            } else {
                                j as int
                            }]));
                        } else {
                            assert(leq(before[p], before[q]));
                        }
                    }
                    assert forall|q: int| j - 1 < q < after.len() implies leq(
                        after[i as int],
                        #[trigger] after[q],
                    ) by {
                        if q == j {
                            if !exchange {
                                assert(leq(before[j as int], before[i as int]) || leq(
                                    before[i as int],
                                    before[j as int],
                                ));
                            }
                        } else {
                            assert(leq(before[i as int], before[q]));
                            if exchange {
                                assert(leq(before[j as int], before[i as int]) && leq(
                                    before[i as int],
                                    before[q],
                                ));
                            }
                        }
                    }
                }
            }
            j -= 1;
        }
        proof {
            assert forall|leq: spec_fn(T, T) -> bool| #[trigger]
                answers(compare, leq) && total_preorder(leq) implies settled(
                list@,
                leq,
                i + 1,
            ) by {
                assert(settled(list@, leq, i as int) && leads(list@, leq, i as int, i as int));
            }
        }
        i += 1;
    }
    Ok(())
}

} // verus!
