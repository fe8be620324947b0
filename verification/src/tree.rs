//! The tree capability: a rooted tree whose vertices and edges carry labels.

use std::fmt::Debug;
use vstd::prelude::*;

use crate::error::EnceladusError;
use crate::graph::{EdgeNumber, VertexNumber};

verus! {

/// A rooted, labelled tree.
///
/// `V` is the type of the vertex labels and `E` that of the edge labels.
pub trait Tree<V: Clone + Eq + Debug, E: Clone + Eq + Debug>: Sized + Clone + Eq + Debug {
    /// Creates a tree without vertices.
    fn new() -> Self;

    /// Returns the label of `vertex`.
    fn get_vertex(&self, vertex: VertexNumber) -> Result<Option<&V>, EnceladusError>;

    /// Gives exclusive access to the label of `vertex`.
    fn get_mut_vertex(&mut self, vertex: VertexNumber) -> Result<Option<&mut V>, EnceladusError>;

    /// Replaces the label of `vertex`.
    fn set_vertex(&mut self, vertex: VertexNumber, label: V) -> Result<(), EnceladusError>;

    /// Returns the label of `edge`.
    fn get_edge(&self, edge: EdgeNumber) -> Result<Option<&E>, EnceladusError>;

    /// Gives exclusive access to the label of `edge`.
    fn get_mut_edge(&mut self, edge: EdgeNumber) -> Result<Option<&mut E>, EnceladusError>;

    /// Replaces the label of `edge`.
    fn set_edge(&mut self, edge: EdgeNumber, label: E) -> Result<(), EnceladusError>;

    /// Adds a vertex below `parent`, or as the root where `parent` is `None`.
    fn insert_vertex(
        &mut self,
        parent: Option<VertexNumber>,
        vertex_label: V,
        edge_label: E,
    ) -> Result<VertexNumber, EnceladusError>;

    /// Removes `vertex`.
    fn remove_vertex(&mut self, vertex: VertexNumber) -> Result<(), EnceladusError>;

    /// Returns the number of edges between `vertex` and the root.
    fn depth(&self, vertex: VertexNumber) -> Result<usize, EnceladusError>;

    /// Returns the number of edges on the longest way down from `vertex`.
    fn height(&self, vertex: VertexNumber) -> Result<usize, EnceladusError>;

    /// Returns the parent of `vertex`, or `None` for the root.
    fn parent(&self, vertex: VertexNumber) -> Result<Option<VertexNumber>, EnceladusError>;

    /// Returns the children of `vertex`.
    fn children(&self, vertex: VertexNumber) -> Result<Vec<VertexNumber>, EnceladusError>;

    /// Returns the number of vertices.
    fn order(&self) -> Result<usize, EnceladusError>;

    /// Returns the number of edges.
    fn size(&self) -> Result<usize, EnceladusError>;

    /// Returns the number of edges at `vertex`.
    fn degree(&self, vertex: VertexNumber) -> Result<usize, EnceladusError>;

    /// Returns the number of children of `vertex`.
    fn num_children(&self, vertex: VertexNumber) -> Result<usize, EnceladusError>;

    /// Returns the greatest number of children of a vertex.
    fn arity(&self) -> Result<usize, EnceladusError>;

    /// Tells whether `a` is the parent of `b`.
    fn is_parent(&self, a: VertexNumber, b: VertexNumber) -> Result<bool, EnceladusError>;

    /// Tells whether `a` is a child of `b`.
    fn is_child(&self, a: VertexNumber, b: VertexNumber) -> Result<bool, EnceladusError>;

    /// Tells whether an edge joins `a` and `b`.
    fn is_adjacent(&self, a: VertexNumber, b: VertexNumber) -> Result<bool, EnceladusError>;

    /// Tells whether `vertex` is an endpoint of `edge`.
    fn is_incident(&self, vertex: VertexNumber, edge: EdgeNumber) -> Result<bool, EnceladusError>;

    /// Returns the edge between `vertex` and its parent, or `None` for the
    /// root.
    fn parent_edge(&self, vertex: VertexNumber) -> Result<Option<EdgeNumber>, EnceladusError>;

    /// Returns the edges between `vertex` and its children.
    fn child_edges(&self, vertex: VertexNumber) -> Result<Vec<EdgeNumber>, EnceladusError>;

    /// Returns the endpoints of `edge`.
    fn endpoints(&self, edge: EdgeNumber) -> Result<(VertexNumber, VertexNumber), EnceladusError>;

    /// Removes every vertex and every edge.
    fn clear(&mut self) -> Result<(), EnceladusError>;
}

} // verus!
