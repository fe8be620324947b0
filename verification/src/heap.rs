//! A priority queue kept in a sorted array.
//!
//! The elements lie in a `Vec` in ascending order, so that the greatest one
//! is the last. Adding an element walks down from the end to its place.

use std::fmt::Debug;
use vstd::prelude::*;
use vstd::std_specs::cmp::PartialEqSpec;

use crate::error::EnceladusError;
use crate::list::{lemma_first_position, lemma_no_position};
use crate::priority_queue::{at_most, ordered, PriorityQueue};

verus! {

/// A priority queue whose greatest element comes out first.
#[derive(Clone, Debug)]
pub struct Heap<T> {
    elems: Vec<T>,
}

impl<T> View for Heap<T> {
    type V = Seq<T>;

    closed spec fn view(&self) -> Seq<T> {
        self.elems@
    }
}

/// `elems` is in ascending order.
pub open spec fn ascending<T: PartialOrd>(elems: Seq<T>) -> bool {
    forall|i: int, j: int|
        0 <= i < j < elems.len() ==> at_most(#[trigger] elems[i], #[trigger] elems[j])
}

impl<T: Eq + Clone + Ord + Debug> Heap<T> {
    /// Hands the elements over, in the order in which `find` counts them.
    pub fn into_vec(self) -> (elems: Vec<T>)
        ensures
            elems@ == self@,
    {
        self.elems
    }
}

impl<T: Eq + Clone + Ord + Debug> PriorityQueue<T> for Heap<T> {
    /// Where the order of `T` is total and transitive, the elements lie in
    /// ascending order.
    open spec fn wf(&self) -> bool {
        ordered::<T>() ==> ascending(self@)
    }

    fn new() -> (queue: Self) {
        Heap { elems: Vec::new() }
    }

    fn push(&mut self, elem: T) -> (done: Result<(), EnceladusError>) {
        let ghost before = self.elems@;
        let mut pos: usize = self.elems.len();
        let mut walking: bool = true;
        while walking && pos > 0
            invariant
                pos <= self.elems@.len(),
                self.elems@ == before,
                ordered::<T>() ==> ascending(before),
                ordered::<T>() ==> forall|k: int|
                    pos <= k < before.len() ==> at_most(elem, #[trigger] before[k]),
                ordered::<T>() && !walking ==> pos > 0 && at_most(before[pos - 1], elem),
            decreases pos + if walking {
                1int
            } else {
                0int
            },
        {
            if self.elems[pos - 1] <= elem {
                walking = false;
            } else {
                proof {
                    if ordered::<T>() {
                        assert(at_most(before[pos - 1], elem) || at_most(elem, before[pos - 1]));
                    }
                }
                pos -= 1;
            }
        }
        self.elems.insert(pos, elem);
        proof {
            vstd::seq_lib::to_multiset_insert(before, pos as int, elem);
            if ordered::<T>() {
                let after = self.elems@;
                assert forall|i: int, j: int| 0 <= i < j < after.len() implies at_most(
                    #[trigger] after[i],
                    #[trigger] after[j],
                ) by {
                    if j < pos {
                        assert(at_most(before[i], before[j]));
                    } else if j == pos {
                        assert(at_most(before[pos - 1], elem));
                        if i < pos - 1 {
                            assert(at_most(before[i], before[pos - 1]));
                        }
                    } else if i == pos {
                        assert(at_most(elem, before[j - 1]));
                    } else if i < pos {
                        assert(at_most(before[i], before[j - 1]));
                    } else {
                        assert(at_most(before[i - 1], before[j - 1]));
                    }
                }
            }
        }
        Ok(())
    }

    fn pop(&mut self) -> (taken: Result<T, EnceladusError>) {
        let ghost before = self.elems@;
        match self.elems.pop() {
            Some(top) => {
                proof {
                    assert(before[before.len() - 1] == top);
                    vstd::seq_lib::to_multiset_remove(before, before.len() - 1);
                    assert(before.remove(before.len() - 1) =~= self.elems@);
                    if ordered::<T>() {
                        assert(at_most(top, top));
                        assert forall|i: int, j: int| 0 <= i < j < self.elems@.len() implies at_most(
                            #[trigger] self.elems@[i],
                            #[trigger] self.elems@[j],
                        ) by {
                            assert(at_most(before[i], before[j]));
                        }
                    }
                }
                Ok(top)
            },
            None => Err(EnceladusError::OutOfBounds),
        }
    }

    fn peek(&self) -> (found: Result<&T, EnceladusError>) {
        if self.elems.len() == 0 {
            return Err(EnceladusError::OutOfBounds);
        }
        let top = &self.elems[self.elems.len() - 1];
        proof {
            if ordered::<T>() {
                assert(at_most(*top, *top));
            }
        }
        Ok(top)
    }

    fn find(&self, elem: T) -> (found: Result<Option<usize>, EnceladusError>) {
        let mut i: usize = 0;
        while i < self.elems.len()
            invariant
                i <= self.elems@.len(),
                T::obeys_eq_spec() ==> forall|k: int|
                    0 <= k < i ==> !(#[trigger] self.elems@[k]).eq_spec(&elem),
            decreases self.elems@.len() - i,
        {
            if self.elems[i] == elem {
                proof {
                    if T::obeys_eq_spec() {
                        lemma_first_position(self.elems@, elem, i as int);
                    }
                }
                return Ok(Some(i));
            }
            i += 1;
        }
        proof {
            if T::obeys_eq_spec() {
                lemma_no_position(self.elems@, elem);
            }
        }
        Ok(None)
    }

    fn length(&self) -> (count: Result<usize, EnceladusError>) {
        Ok(self.elems.len())
    }
}

impl<T: Eq + Clone + Ord + Debug> PartialEq for Heap<T> {
    fn eq(&self, other: &Self) -> (equal: bool) {
        let equal = self.elems == other.elems;
        proof {
            if T::obeys_eq_spec() {
                if equal {
                    assert forall|i: int| 0 <= i < self@.len() implies (#[trigger] self@[i]).eq_spec(
                        &other@[i],
                    ) by {
                        assert(self.elems[i].eq_spec(&other.elems[i]));
                    }
                }
                if self@.len() == other@.len() && forall|i: int|
                    0 <= i < self@.len() ==> (#[trigger] self@[i]).eq_spec(&other@[i]) {
                    assert forall|i: int| 0 <= i < self.elems.len() implies (
                    #[trigger] self.elems[i]).eq_spec(&other.elems[i]) by {
                        assert(self@[i].eq_spec(&other@[i]));
                    }
                }
            }
        }
        equal
    }
}

impl<T: Eq + Clone + Ord + Debug> vstd::std_specs::cmp::PartialEqSpecImpl for Heap<T> {
    open spec fn obeys_eq_spec() -> bool {
        T::obeys_eq_spec()
    }

    open spec fn eq_spec(&self, other: &Self) -> bool {
        &&& self@.len() == other@.len()
        &&& forall|i: int| 0 <= i < self@.len() ==> (#[trigger] self@[i]).eq_spec(&other@[i])
    }
}

impl<T: Eq + Clone + Ord + Debug> Eq for Heap<T> {

}

} // verus!
