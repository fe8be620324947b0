//! A tree whose vertices keep their children in an array.

use std::fmt::Debug;
use vstd::prelude::*;
use vstd::std_specs::cmp::PartialEqSpec;

verus! {

/// A vertex with its label and, for each child, the label of the edge to it
/// and the child.
#[derive(Debug)]
struct ArrayTreeNode<V, E> {
    vlabel: V,
    children: Vec<(Option<E>, ArrayTreeNode<V, E>)>,
}

/// A rooted tree, or no vertex at all.
#[derive(Debug)]
pub struct ArrayTree<V, E> {
    root: Option<ArrayTreeNode<V, E>>,
}

impl<V: Clone + Eq + Debug, E: Clone + Eq + Debug> ArrayTreeNode<V, E> {
    /// Whether the two vertices carry equal labels and have equal children,
    /// one by one, under equal edge labels.
    spec fn same_as(&self, other: &Self) -> bool
        decreases self,
    {
        &&& self.vlabel.eq_spec(&other.vlabel)
        &&& self.children@.len() == other.children@.len()
        &&& forall|i: int|
            0 <= i < self.children@.len() ==> {
                &&& (#[trigger] self.children@[i]).0.eq_spec(&other.children@[i].0)
                &&& self.children@[i].1.same_as(&other.children@[i].1)
            }
    }

    /// Compares two vertices with all that hangs below them.
    fn equals(&self, other: &Self) -> (equal: bool)
        ensures
            V::obeys_eq_spec() && E::obeys_eq_spec() ==> equal == self.same_as(other),
        decreases self,
    {
        if self.vlabel != other.vlabel || self.children.len() != other.children.len() {
            return false;
        }
        let arity: usize = self.children.len();
        let mut i: usize = 0;
        while i < arity
            invariant
                i <= arity,
                arity == self.children@.len(),
                arity == other.children@.len(),
                V::obeys_eq_spec() && E::obeys_eq_spec() ==> self.vlabel.eq_spec(&other.vlabel),
                V::obeys_eq_spec() && E::obeys_eq_spec() ==> forall|k: int|
                    0 <= k < i ==> {
                        &&& (#[trigger] self.children@[k]).0.eq_spec(&other.children@[k].0)
                        &&& self.children@[k].1.same_as(&other.children@[k].1)
                    },
            decreases arity - i,
        {
            if self.children[i].0 != other.children[i].0 {
                return false;
            }
            if !self.children[i].1.equals(&other.children[i].1) {
                return false;
            }
            i += 1;
        }
        true
    }
}

impl<V: Clone + Eq + Debug, E: Clone + Eq + Debug> Clone for ArrayTreeNode<V, E> {
    /// Copies the vertex with all that hangs below it.
    fn clone(&self) -> (copy: Self)
        decreases self,
    {
        let mut children: Vec<(Option<E>, ArrayTreeNode<V, E>)> = Vec::new();
        let mut i: usize = 0;
        while i < self.children.len()
            invariant
                i <= self.children@.len(),
                children@.len() == i,
            decreases self.children@.len() - i,
        {
            let label = match &self.children[i].0 {
                Some(label) => Some(label.clone()),
                None => None,
            };
            let child = self.children[i].1.clone();
            children.push((label, child));
            i += 1;
        }
        ArrayTreeNode { vlabel: self.vlabel.clone(), children }
    }
}

impl<V: Clone + Eq + Debug, E: Clone + Eq + Debug> Clone for ArrayTree<V, E> {
    /// Copies the tree.
    fn clone(&self) -> (copy: Self)
        ensures
            copy.is_empty() == self.is_empty(),
    {
        match &self.root {
            Some(node) => ArrayTree { root: Some(node.clone()) },
            None => ArrayTree { root: None },
        }
    }
}

impl<V: Clone + Eq + Debug, E: Clone + Eq + Debug> ArrayTree<V, E> {
    /// Creates a tree without vertices.
    pub fn new() -> (tree: Self)
        ensures
            tree.is_empty(),
    {
        ArrayTree { root: None }
    }

    /// Whether the tree has no vertex.
    pub closed spec fn is_empty(&self) -> bool {
        self.root is None
    }

    /// The label of the root, or `None` for a tree without vertices.
    pub closed spec fn spec_root_label(&self) -> Option<V> {
        match self.root {
            Some(node) => Some(node.vlabel),
            None => None,
        }
    }

    /// Returns the label of the root, or `None` for a tree without vertices.
    pub fn root_label(&self) -> (label: Option<&V>)
        ensures
            label == match self.spec_root_label() {
                Some(label) => Some(&label),
                None => None,
            },
            self.is_empty() <==> label is None,
    {
        match &self.root {
            Some(node) => Some(&node.vlabel),
            None => None,
        }
    }

    /// Whether the two trees have no vertex, or equal roots with all that
    /// hangs below them.
    pub closed spec fn same_as(&self, other: &Self) -> bool {
        match (self.root, other.root) {
            (None, None) => true,
            (Some(a), Some(b)) => a.same_as(&b),
            _ => false,
        }
    }

    /// Two trees without vertices are equal.
    pub proof fn lemma_empty_trees_equal(&self, other: &Self)
        requires
            self.is_empty(),
            other.is_empty(),
        ensures
            self.same_as(other),
    {
    }
}

impl<V: Clone + Eq + Debug, E: Clone + Eq + Debug> PartialEq for ArrayTree<V, E> {
    fn eq(&self, other: &Self) -> (equal: bool) {
        match (&self.root, &other.root) {
            (None, None) => true,
            (Some(a), Some(b)) => a.equals(b),
            _ => false,
        }
    }
}

impl<V: Clone + Eq + Debug, E: Clone + Eq + Debug> vstd::std_specs::cmp::PartialEqSpecImpl for ArrayTree<V, E> {
    open spec fn obeys_eq_spec() -> bool {
        V::obeys_eq_spec() && E::obeys_eq_spec()
    }

    open spec fn eq_spec(&self, other: &Self) -> bool {
        self.same_as(other)
    }
}

impl<V: Clone + Eq + Debug, E: Clone + Eq + Debug> Eq for ArrayTree<V, E> {

}

} // verus!
