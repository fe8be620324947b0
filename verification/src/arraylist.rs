//! A list kept in a growable array.

use std::fmt::Debug;
use vstd::prelude::*;
use vstd::std_specs::cmp::PartialEqSpec;

use crate::error::EnceladusError;
use crate::list::{lemma_first_position, lemma_no_position, positions_of, List};

verus! {

/// A list whose elements lie in a `Vec`, in their order.
#[derive(Clone, Debug)]
pub struct ArrayList<T> {
    elems: Vec<T>,
}

impl<T> View for ArrayList<T> {
    type V = Seq<T>;

    closed spec fn view(&self) -> Seq<T> {
        self.elems@
    }
}

/// Exchanges two elements of a vector with the standard library's
/// `slice::swap`.
///
/// Trusted: the call exchanges the elements at `a` and `b` and leaves the
/// others where they are. It panics on a position out of bounds, which the
/// precondition rules out.
#[verifier::external_body]
fn swap_elems<T>(elems: &mut Vec<T>, a: usize, b: usize)
    requires
        a < old(elems)@.len(),
        b < old(elems)@.len(),
    ensures
        final(elems)@ == old(elems)@.update(a as int, old(elems)@[b as int]).update(
            b as int,
            old(elems)@[a as int],
        ),
{
    elems.swap(a, b)
}

impl<T: Clone + Eq + Debug> ArrayList<T> {
    /// The positions of the elements that equal `elem`, ascending.
    fn positions(&self, elem: &T) -> (positions: Vec<usize>)
        ensures
            T::obeys_eq_spec() ==> positions@ == positions_of(self@, *elem),
    {
        let mut positions: Vec<usize> = Vec::new();
        let mut i: usize = 0;
        proof {
            assert(self.elems@.take(0) =~= Seq::<T>::empty());
        }
        while i < self.elems.len()
            invariant
                i <= self.elems@.len(),
                T::obeys_eq_spec() ==> positions@ == positions_of(self.elems@.take(i as int), *elem),
            decreases self.elems@.len() - i,
        {
            proof {
                assert(self.elems@.take(i + 1).drop_last() =~= self.elems@.take(i as int));
            }
            if self.elems[i] == *elem {
                positions.push(i);
            }
            i += 1;
        }
        proof {
            assert(self.elems@.take(i as int) =~= self.elems@);
        }
        positions
    }
}

impl<T: Clone + Eq + Debug> List<T> for ArrayList<T> {
    fn new() -> (list: Self) {
        ArrayList { elems: Vec::new() }
    }

    fn get(&self, pos: usize) -> (found: Result<&T, EnceladusError>) {
        if pos >= self.elems.len() {
            return Err(EnceladusError::OutOfBounds);
        }
        Ok(&self.elems[pos])
    }

    fn get_mut(&mut self, pos: usize) -> (found: Result<&mut T, EnceladusError>) {
        if pos >= self.elems.len() {
            return Err(EnceladusError::OutOfBounds);
        }
        Ok(&mut self.elems[pos])
    }

    fn set(&mut self, pos: usize, elem: T) -> (done: Result<(), EnceladusError>) {
        if pos >= self.elems.len() {
            return Err(EnceladusError::OutOfBounds);
        }
        self.elems[pos] = elem;
        Ok(())
    }

    fn insert(&mut self, pos: usize, elem: T) -> (done: Result<(), EnceladusError>) {
        if pos > self.elems.len() {
            return Err(EnceladusError::OutOfBounds);
        }
        self.elems.insert(pos, elem);
        Ok(())
    }

    fn remove(&mut self, pos: usize) -> (taken: Result<T, EnceladusError>) {
        if pos >= self.elems.len() {
            return Err(EnceladusError::OutOfBounds);
        }
        Ok(self.elems.remove(pos))
    }

    fn length(&self) -> (count: Result<usize, EnceladusError>) {
        Ok(self.elems.len())
    }

    fn append(&mut self, elem: T) -> (done: Result<(), EnceladusError>) {
        self.elems.push(elem);
        Ok(())
    }

    fn swap(&mut self, a: usize, b: usize) -> (done: Result<(), EnceladusError>) {
        if a >= self.elems.len() || b >= self.elems.len() {
            return Err(EnceladusError::OutOfBounds);
        }
        swap_elems(&mut self.elems, a, b);
        Ok(())
    }

    fn contains(&self, elem: T) -> (found: Result<bool, EnceladusError>) {
        Ok(self.positions(&elem).len() > 0)
    }

    fn find_all(&self, elem: T) -> (found: Result<Option<Vec<usize>>, EnceladusError>) {
        let positions = self.positions(&elem);
        if positions.len() == 0 {
            Ok(None)
        } else {
            Ok(Some(positions))
        }
    }

    fn find(&self, elem: T) -> (found: Result<Option<usize>, EnceladusError>) {
        let mut i: usize = 0;
        while i < self.elems.len()
            invariant
                i <= self.elems@.len(),
                T::obeys_eq_spec() ==> forall|k: int|
                    0 <= k < i ==> !(#[trigger] self.elems@[k]).eq_spec(&elem),
            decreases self.elems@.len() - i,
        {
            if self.elems[i] == elem {
                proof {
                    if T::obeys_eq_spec() {
                        lemma_first_position(self.elems@, elem, i as int);
                    }
                }
                return Ok(Some(i));
            }
            i += 1;
        }
        proof {
            if T::obeys_eq_spec() {
                lemma_no_position(self.elems@, elem);
            }
        }
        Ok(None)
    }

    fn count(&self, elem: T) -> (count: Result<usize, EnceladusError>) {
        Ok(self.positions(&elem).len())
    }

    fn clear(&mut self) -> (done: Result<(), EnceladusError>) {
        self.elems.clear();
        Ok(())
    }
}

impl<T: Clone + Eq + Debug> PartialEq for ArrayList<T> {
    fn eq(&self, other: &Self) -> (equal: bool) {
        let equal = self.elems == other.elems;
        proof {
            if T::obeys_eq_spec() {
                if equal {
                    assert forall|i: int| 0 <= i < self@.len() implies (#[trigger] self@[i]).eq_spec(
                        &other@[i],
                    ) by {
                        assert(self.elems[i].eq_spec(&other.elems[i]));
                    }
                }
                if self@.len() == other@.len() && forall|i: int|
                    0 <= i < self@.len() ==> (#[trigger] self@[i]).eq_spec(&other@[i]) {
                    assert forall|i: int| 0 <= i < self.elems.len() implies (
                    #[trigger] self.elems[i]).eq_spec(&other.elems[i]) by {
                        assert(self@[i].eq_spec(&other@[i]));
                    }
                }
            }
        }
        equal
    }
}

impl<T: Clone + Eq + Debug> vstd::std_specs::cmp::PartialEqSpecImpl for ArrayList<T> {
    open spec fn obeys_eq_spec() -> bool {
        T::obeys_eq_spec()
    }

    open spec fn eq_spec(&self, other: &Self) -> bool {
        &&& self@.len() == other@.len()
        &&& forall|i: int| 0 <= i < self@.len() ==> (#[trigger] self@[i]).eq_spec(&other@[i])
    }
}

impl<T: Clone + Eq + Debug> Eq for ArrayList<T> {

}

} // verus!
