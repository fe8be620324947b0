//! The graph capability: a labelled multigraph whose vertices and edges are
//! numbered from zero without gaps.
//!
//! A graph is described by three sequences: the vertex labels by vertex
//! number, the edge labels by edge number, and the endpoints of the edges by
//! edge number. Several edges may join the same two vertices, and an edge may
//! join a vertex to itself. Removing a vertex or an edge moves the numbers
//! behind it one down.

use std::fmt::Debug;
use vstd::prelude::*;

use crate::error::EnceladusError;

verus! {

/// The number of a vertex.
pub type VertexNumber = usize;

/// The number of an edge.
pub type EdgeNumber = usize;

/// The two endpoints of an edge, in the order in which they were given.
pub type Link = (VertexNumber, VertexNumber);

/// Whether an edge with the endpoints `link` has the vertex `vertex` as an
/// endpoint.
pub open spec fn touches(link: Link, vertex: int) -> bool {
    link.0 == vertex || link.1 == vertex
}

/// The number of ends that an edge with the endpoints `link` has at `vertex`:
/// two for a self-loop on it.
pub open spec fn ends_of(link: Link, vertex: int) -> nat {
    (if link.0 == vertex {
        1nat
    } else {
        0nat
    }) + (if link.1 == vertex {
        1nat
    } else {
        0nat
    })
}

/// What an edge with the endpoints `link` adds to the cell `(a, b)` of the
/// adjacency matrix: one for an edge between `a` and `b`, two for a self-loop
/// where `a` and `b` are its vertex.
pub open spec fn joins(link: Link, a: int, b: int) -> nat {
    (if link.0 == a && link.1 == b {
        1nat
    } else {
        0nat
    }) + (if link.0 == b && link.1 == a {
        1nat
    } else {
        0nat
    })
}

/// The degree of `vertex`: the number of edge ends at it.
pub open spec fn degree_of(links: Seq<Link>, vertex: int) -> nat
    decreases links.len(),
{
    if links.len() == 0 {
        0
    } else {
        degree_of(links.drop_last(), vertex) + ends_of(links.last(), vertex)
    }
}

/// The cell `(a, b)` of the adjacency matrix: the number of edges between `a`
/// and `b`, a self-loop counted twice.
pub open spec fn multiplicity(links: Seq<Link>, a: int, b: int) -> nat
    decreases links.len(),
{
    if links.len() == 0 {
        0
    } else {
        multiplicity(links.drop_last(), a, b) + joins(links.last(), a, b)
    }
}

/// The numbers of the edges that have `vertex` as an endpoint, ascending.
pub open spec fn incident_to(links: Seq<Link>, vertex: int) -> Seq<EdgeNumber>
    decreases links.len(),
{
    if links.len() == 0 {
        Seq::empty()
    } else {
        let earlier = incident_to(links.drop_last(), vertex);
        if touches(links.last(), vertex) {
            earlier.push((links.len() - 1) as usize)
        } else {
            earlier
        }
    }
}

/// The numbers below `order` of the vertices that an edge joins to `vertex`,
/// ascending.
pub open spec fn neighbours_of(links: Seq<Link>, vertex: int, order: nat) -> Seq<VertexNumber>
    decreases order,
{
    if order == 0 {
        Seq::empty()
    } else {
        let earlier = neighbours_of(links, vertex, (order - 1) as nat);
        if multiplicity(links, vertex, order - 1) > 0 {
            earlier.push((order - 1) as usize)
        } else {
            earlier
        }
    }
}

/// Of `items`, which go with the edges `links` one by one, those whose edge
/// does not have `vertex` as an endpoint, in their order.
pub open spec fn kept<T>(items: Seq<T>, links: Seq<Link>, vertex: int) -> Seq<T>
    recommends
        items.len() == links.len(),
    decreases links.len(),
{
    if links.len() == 0 || items.len() == 0 {
        Seq::empty()
    } else {
        let earlier = kept(items.drop_last(), links.drop_last(), vertex);
        if touches(links.last(), vertex) {
            earlier
        } else {
            earlier.push(items.last())
        }
    }
}

/// The number that a vertex other than `vertex` has once `vertex` is removed.
pub open spec fn lowered(number: VertexNumber, vertex: int) -> VertexNumber {
    if number > vertex {
        (number - 1) as usize
    } else {
        number
    }
}

/// The endpoints `link` once `vertex` is removed.
pub open spec fn lowered_link(link: Link, vertex: int) -> Link {
    (lowered(link.0, vertex), lowered(link.1, vertex))
}

/// The endpoints of the edges that are left once `vertex` is removed: those
/// of the edges that do not touch it, with the vertices renumbered.
pub open spec fn links_without(links: Seq<Link>, vertex: int) -> Seq<Link> {
    lowered_links(kept(links, links, vertex), vertex)
}

/// The endpoints `links` once `vertex` is removed, edge by edge.
pub open spec fn lowered_links(links: Seq<Link>, vertex: int) -> Seq<Link> {
    Seq::new(links.len(), |e: int| lowered_link(links[e], vertex))
}

/// Whether every edge joins vertices below `order`.
pub open spec fn links_within(links: Seq<Link>, order: nat) -> bool {
    forall|e: int| 0 <= e < links.len() ==> (#[trigger] links[e]).0 < order && links[e].1 < order
}

/// The adjacency matrix is symmetric.
pub proof fn lemma_multiplicity_symmetric(links: Seq<Link>, a: int, b: int)
    ensures
        multiplicity(links, a, b) == multiplicity(links, b, a),
    decreases links.len(),
{
    if links.len() > 0 {
        lemma_multiplicity_symmetric(links.drop_last(), a, b);
    }
}

/// A vertex has at most two ends of every edge, and a cell of its row in the
/// adjacency matrix counts no more than the ends at it.
pub proof fn lemma_degree_bounds(links: Seq<Link>, a: int, b: int)
    ensures
        multiplicity(links, a, b) <= degree_of(links, a),
        degree_of(links, a) <= 2 * links.len(),
    decreases links.len(),
{
    if links.len() > 0 {
        lemma_degree_bounds(links.drop_last(), a, b);
    }
}

/// A vertex that no edge touches has degree zero and an empty row.
pub proof fn lemma_untouched(links: Seq<Link>, vertex: int, other: int)
    requires
        forall|e: int| 0 <= e < links.len() ==> !touches(#[trigger] links[e], vertex),
    ensures
        degree_of(links, vertex) == 0,
        multiplicity(links, vertex, other) == 0,
        multiplicity(links, other, vertex) == 0,
        incident_to(links, vertex) == Seq::<EdgeNumber>::empty(),
    decreases links.len(),
{
    if links.len() > 0 {
        assert forall|e: int| 0 <= e < links.drop_last().len() implies !touches(
            #[trigger] links.drop_last()[e],
            vertex,
        ) by {
            assert(links.drop_last()[e] == links[e]);
        }
        lemma_untouched(links.drop_last(), vertex, other);
        assert(!touches(links[links.len() - 1], vertex));
    }
}

/// Degrees and multiplicities add up over a concatenation.
pub proof fn lemma_counts_concat(front: Seq<Link>, back: Seq<Link>, a: int, b: int)
    ensures
        degree_of(front + back, a) == degree_of(front, a) + degree_of(back, a),
        multiplicity(front + back, a, b) == multiplicity(front, a, b) + multiplicity(back, a, b),
    decreases back.len(),
{
    if back.len() == 0 {
        assert(front + back =~= front);
    } else {
        lemma_counts_concat(front, back.drop_last(), a, b);
        assert((front + back).drop_last() =~= front + back.drop_last());
    }
}

/// Removing an edge takes its ends and its joins away.
pub proof fn lemma_counts_remove(links: Seq<Link>, edge: int, a: int, b: int)
    requires
        0 <= edge < links.len(),
    ensures
        degree_of(links, a) == degree_of(links.remove(edge), a) + ends_of(links[edge], a),
        multiplicity(links, a, b) == multiplicity(links.remove(edge), a, b) + joins(
            links[edge],
            a,
            b,
        ),
{
    let front = links.take(edge);
    let back = links.skip(edge + 1);
    let one = seq![links[edge]];
    assert(links =~= front + one + back);
    assert(links.remove(edge) =~= front + back);
    lemma_counts_concat(front, one, a, b);
    lemma_counts_concat(front + one, back, a, b);
    lemma_counts_concat(front, back, a, b);
    assert(one.drop_last() =~= Seq::<Link>::empty());
    assert(degree_of(one.drop_last(), a) == 0);
    assert(multiplicity(one.drop_last(), a, b) == 0);
    assert(one.last() == links[edge]);
    assert(degree_of(one, a) == ends_of(links[edge], a));
    assert(multiplicity(one, a, b) == joins(links[edge], a, b));
}

/// Renumbering the vertices around a vertex that no edge touches keeps
/// degrees and multiplicities.
pub proof fn lemma_counts_lowered(links: Seq<Link>, vertex: int, a: int, b: int)
    requires
        forall|e: int| 0 <= e < links.len() ==> !touches(#[trigger] links[e], vertex),
        0 <= vertex,
        a != vertex,
        b != vertex,
        0 <= a <= usize::MAX,
        0 <= b <= usize::MAX,
    ensures
        degree_of(lowered_links(links, vertex), lowered(a as usize, vertex) as int) == degree_of(
            links,
            a,
        ),
        multiplicity(
            lowered_links(links, vertex),
            lowered(a as usize, vertex) as int,
            lowered(b as usize, vertex) as int,
        ) == multiplicity(links, a, b),
    decreases links.len(),
{
    if links.len() > 0 {
        assert forall|e: int| 0 <= e < links.drop_last().len() implies !touches(
            #[trigger] links.drop_last()[e],
            vertex,
        ) by {
            assert(links.drop_last()[e] == links[e]);
        }
        lemma_counts_lowered(links.drop_last(), vertex, a, b);
        assert(lowered_links(links, vertex).drop_last() =~= lowered_links(
            links.drop_last(),
            vertex,
        ));
        assert(!touches(links[links.len() - 1], vertex));
        assert(lowered_links(links, vertex).last() == lowered_link(links.last(), vertex));
    }
}

/// The kept items add up over a concatenation.
pub proof fn lemma_kept_concat<T>(
    front_items: Seq<T>,
    back_items: Seq<T>,
    front: Seq<Link>,
    back: Seq<Link>,
    vertex: int,
)
    requires
        front_items.len() == front.len(),
        back_items.len() == back.len(),
    ensures
        kept(front_items + back_items, front + back, vertex) == kept(front_items, front, vertex)
            + kept(back_items, back, vertex),
    decreases back.len(),
{
    if back.len() == 0 {
        assert(front + back =~= front);
        assert(front_items + back_items =~= front_items);
        assert(kept(front_items, front, vertex) + Seq::<T>::empty() =~= kept(
            front_items,
            front,
            vertex,
        ));
    } else {
        lemma_kept_concat(front_items, back_items.drop_last(), front, back.drop_last(), vertex);
        assert((front + back).drop_last() =~= front + back.drop_last());
        assert((front_items + back_items).drop_last() =~= front_items + back_items.drop_last());
        let earlier = kept(front_items, front, vertex) + kept(
            back_items.drop_last(),
            back.drop_last(),
            vertex,
        );
        if !touches(back.last(), vertex) {
            assert(earlier.push(back_items.last()) =~= kept(front_items, front, vertex) + kept(
                back_items.drop_last(),
                back.drop_last(),
                vertex,
            ).push(back_items.last()));
        }
    }
}

/// No kept edge touches the vertex, and there are as many kept items as kept
/// edges.
pub proof fn lemma_kept_untouched<T>(items: Seq<T>, links: Seq<Link>, vertex: int)
    requires
        items.len() == links.len(),
    ensures
        kept(items, links, vertex).len() == kept(links, links, vertex).len(),
        kept(items, links, vertex).len() <= links.len(),
        forall|e: int|
            0 <= e < kept(links, links, vertex).len() ==> !touches(
                #[trigger] kept(links, links, vertex)[e],
                vertex,
            ),
        forall|e: int|
            0 <= e < kept(links, links, vertex).len() ==> exists|from: int|
                0 <= from < links.len() && links[from] == #[trigger] kept(links, links, vertex)[e],
    decreases links.len(),
{
    if links.len() > 0 {
        lemma_kept_untouched(items.drop_last(), links.drop_last(), vertex);
        let earlier = kept(links.drop_last(), links.drop_last(), vertex);
        assert forall|e: int| 0 <= e < kept(links, links, vertex).len() implies exists|from: int|
            0 <= from < links.len() && links[from] == #[trigger] kept(links, links, vertex)[e] by {
            if e < earlier.len() {
                let from = choose|from: int|
                    0 <= from < links.drop_last().len() && links.drop_last()[from] == earlier[e];
                assert(links[from] == kept(links, links, vertex)[e]);
            } else {
                assert(links[links.len() - 1] == kept(links, links, vertex)[e]);
            }
        }
    }
}

/// A new edge adds its ends to the degrees: two to the degree of the vertex
/// of a self-loop, one to the degree of each endpoint otherwise, and nothing
/// to the other degrees.
pub proof fn lemma_degree_after_insert(links: Seq<Link>, link: Link, vertex: int)
    ensures
        degree_of(links.push(link), vertex) == degree_of(links, vertex) + ends_of(link, vertex),
        link.0 == vertex && link.1 == vertex ==> degree_of(links.push(link), vertex) == degree_of(
            links,
            vertex,
        ) + 2,
{
    assert(links.push(link).drop_last() =~= links);
}

/// A new edge adds itself to the cells of its endpoints: two to the cell of
/// a self-loop, one to each of the two cells otherwise.
pub proof fn lemma_multiplicity_after_insert(links: Seq<Link>, link: Link, a: int, b: int)
    ensures
        multiplicity(links.push(link), a, b) == multiplicity(links, a, b) + joins(link, a, b),
{
    assert(links.push(link).drop_last() =~= links);
}

/// The number of the edges that touch `vertex` and of those that do not.
pub proof fn lemma_incident_count(links: Seq<Link>, vertex: int)
    ensures
        incident_to(links, vertex).len() + kept(links, links, vertex).len() == links.len(),
        forall|n: int|
            0 <= n < incident_to(links, vertex).len() ==> (#[trigger] incident_to(
                links,
                vertex,
            )[n]) < links.len(),
    decreases links.len(),
{
    if links.len() > 0 {
        lemma_incident_count(links.drop_last(), vertex);
    }
}

/// Removing a vertex removes exactly the edges that touch it, and leaves no
/// edge with an endpoint that is no vertex any more: every endpoint is below
/// the new order.
pub proof fn lemma_remove_vertex_leaves_no_dangling(links: Seq<Link>, vertex: int, order: nat)
    requires
        links_within(links, order),
        0 <= vertex < order,
        order <= usize::MAX,
    ensures
        links_within(links_without(links, vertex), (order - 1) as nat),
        links_without(links, vertex).len() + incident_to(links, vertex).len() == links.len(),
{
    lemma_incident_count(links, vertex);
    lemma_kept_untouched(links, links, vertex);
    let left = kept(links, links, vertex);
    let after = links_without(links, vertex);
    assert forall|e: int| 0 <= e < after.len() implies (#[trigger] after[e]).0 < order - 1
        && after[e].1 < order - 1 by {
        assert(!touches(left[e], vertex));
        let from = choose|from: int| 0 <= from < links.len() && links[from] == left[e];
        assert(links[from].0 < order && links[from].1 < order);
        assert(after[e] == lowered_link(left[e], vertex));
    }
}

/// After a vertex is removed, its number belongs to the vertex that stood
/// behind it. It is the number of no vertex exactly when the removed vertex
/// was the last one.
pub proof fn lemma_number_after_removal<V>(vertices: Seq<V>, vertex: int)
    requires
        0 <= vertex < vertices.len(),
    ensures
        vertices.remove(vertex).len() == vertices.len() - 1,
        vertex < vertices.len() - 1 ==> vertices.remove(vertex)[vertex] == vertices[vertex + 1],
        vertex >= vertices.remove(vertex).len() <==> vertex == vertices.len() - 1,
{
}

/// A labelled multigraph.
///
/// `V` is the type of the vertex labels and `E` that of the edge labels.
pub trait Graph<V: Clone + Eq + Debug, E: Clone + Eq + Debug>: Sized + Clone + Eq + Debug {
    /// The invariant that every operation needs and keeps.
    spec fn wf(&self) -> bool;

    /// The vertex labels by vertex number.
    spec fn vertex_seq(&self) -> Seq<V>;

    /// The edge labels by edge number.
    spec fn edge_seq(&self) -> Seq<E>;

    /// The endpoints of the edges by edge number.
    spec fn link_seq(&self) -> Seq<Link>;

    /// Every edge has a label and two endpoints that are vertices of the
    /// graph, and the counts stay within the machine's integers.
    proof fn lemma_shape(&self)
        requires
            self.wf(),
        ensures
            self.edge_seq().len() == self.link_seq().len(),
            links_within(self.link_seq(), self.vertex_seq().len()),
            self.vertex_seq().len() <= usize::MAX,
            self.link_seq().len() <= usize::MAX,
            2 * self.link_seq().len() <= u64::MAX,
    ;

    /// Creates a graph without vertices and edges.
    fn new() -> (graph: Self)
        ensures
            graph.wf(),
            graph.vertex_seq() == Seq::<V>::empty(),
            graph.edge_seq() == Seq::<E>::empty(),
            graph.link_seq() == Seq::<Link>::empty(),
    ;

    /// Returns the label of `vertex`, or `None` when there is no such vertex.
    fn get_vertex(&self, vertex: VertexNumber) -> (found: Result<Option<&V>, EnceladusError>)
        requires
            self.wf(),
        ensures
            found == Ok::<Option<&V>, EnceladusError>(
                if vertex < self.vertex_seq().len() {
                    Some(&self.vertex_seq()[vertex as int])
                } else {
                    None
                },
            ),
    ;

    /// Gives exclusive access to the label of `vertex`, or `None` when there
    /// is no such vertex.
    fn get_mut_vertex(&mut self, vertex: VertexNumber) -> (found: Result<
        Option<&mut V>,
        EnceladusError,
    >)
        requires
            old(self).wf(),
        ensures
            final(self).wf(),
            final(self).edge_seq() == old(self).edge_seq(),
            final(self).link_seq() == old(self).link_seq(),
            match found {
                Ok(Some(label)) => {
                    &&& vertex < old(self).vertex_seq().len()
                    &&& *label == old(self).vertex_seq()[vertex as int]
                    &&& final(self).vertex_seq() == old(self).vertex_seq().update(
                        vertex as int,
                        *final(label),
                    )
                },
                Ok(None) => vertex >= old(self).vertex_seq().len() && *final(self) == *old(self),
                Err(_) => false,
            },
    ;

    /// Replaces the label of `vertex`. Fails with `KeyNotFound`, and changes
    /// nothing, when there is no such vertex.
    fn set_vertex(&mut self, vertex: VertexNumber, label: V) -> (done: Result<(), EnceladusError>)
        requires
            old(self).wf(),
        ensures
            final(self).wf(),
            final(self).edge_seq() == old(self).edge_seq(),
            final(self).link_seq() == old(self).link_seq(),
            match done {
                Ok(()) => {
                    &&& vertex < old(self).vertex_seq().len()
                    &&& final(self).vertex_seq() == old(self).vertex_seq().update(
                        vertex as int,
                        label,
                    )
                },
                Err(e) => {
                    &&& e == EnceladusError::KeyNotFound
                    &&& vertex >= old(self).vertex_seq().len()
                    &&& *final(self) == *old(self)
                },
            },
    ;

    /// Returns the label of `edge`, or `None` when there is no such edge.
    fn get_edge(&self, edge: EdgeNumber) -> (found: Result<Option<&E>, EnceladusError>)
        requires
            self.wf(),
        ensures
            found == Ok::<Option<&E>, EnceladusError>(
                if edge < self.edge_seq().len() {
                    Some(&self.edge_seq()[edge as int])
                } else {
                    None
                },
            ),
    ;

    /// Gives exclusive access to the label of `edge`, or `None` when there is
    /// no such edge.
    fn get_mut_edge(&mut self, edge: EdgeNumber) -> (found: Result<Option<&mut E>, EnceladusError>)
        requires
            old(self).wf(),
        ensures
            final(self).wf(),
            final(self).vertex_seq() == old(self).vertex_seq(),
            final(self).link_seq() == old(self).link_seq(),
            match found {
                Ok(Some(label)) => {
                    &&& edge < old(self).edge_seq().len()
                    &&& *label == old(self).edge_seq()[edge as int]
                    &&& final(self).edge_seq() == old(self).edge_seq().update(
                        edge as int,
                        *final(label),
                    )
                },
                Ok(None) => edge >= old(self).edge_seq().len() && *final(self) == *old(self),
                Err(_) => false,
            },
    ;

    /// Replaces the label of `edge`. Fails with `KeyNotFound`, and changes
    /// nothing, when there is no such edge.
    fn set_edge(&mut self, edge: EdgeNumber, label: E) -> (done: Result<(), EnceladusError>)
        requires
            old(self).wf(),
        ensures
            final(self).wf(),
            final(self).vertex_seq() == old(self).vertex_seq(),
            final(self).link_seq() == old(self).link_seq(),
            match done {
                Ok(()) => {
                    &&& edge < old(self).edge_seq().len()
                    &&& final(self).edge_seq() == old(self).edge_seq().update(edge as int, label)
                },
                Err(e) => {
                    &&& e == EnceladusError::KeyNotFound
                    &&& edge >= old(self).edge_seq().len()
                    &&& *final(self) == *old(self)
                },
            },
    ;

    /// Adds a vertex with the label `label` and returns its number, the
    /// number of vertices before. The number of vertices has to stay within
    /// `usize`.
    fn insert_vertex(&mut self, label: V) -> (number: Result<VertexNumber, EnceladusError>)
        requires
            old(self).wf(),
            old(self).vertex_seq().len() < usize::MAX,
        ensures
            final(self).wf(),
            number == Ok::<VertexNumber, EnceladusError>(old(self).vertex_seq().len() as usize),
            final(self).vertex_seq() == old(self).vertex_seq().push(label),
            final(self).edge_seq() == old(self).edge_seq(),
            final(self).link_seq() == old(self).link_seq(),
    ;

    /// Removes `vertex` with every edge that touches it. The vertices behind
    /// it move one number down, and so do the edges behind each removed
    /// edge. Fails with `VertexNotFound`, and changes nothing, when there is
    /// no such vertex.
    fn remove_vertex(&mut self, vertex: VertexNumber) -> (done: Result<(), EnceladusError>)
        requires
            old(self).wf(),
        ensures
            final(self).wf(),
            match done {
                Ok(()) => {
                    &&& vertex < old(self).vertex_seq().len()
                    &&& final(self).vertex_seq() == old(self).vertex_seq().remove(vertex as int)
                    &&& final(self).edge_seq() == kept(
                        old(self).edge_seq(),
                        old(self).link_seq(),
                        vertex as int,
                    )
                    &&& final(self).link_seq() == links_without(
                        old(self).link_seq(),
                        vertex as int,
                    )
                },
                Err(e) => {
                    &&& e == EnceladusError::VertexNotFound
                    &&& vertex >= old(self).vertex_seq().len()
                    &&& *final(self) == *old(self)
                },
            },
    ;

    /// Adds an edge with the label `label` between `a` and `b` and returns
    /// its number, the number of edges before. Fails with `VertexNotFound`,
    /// and changes nothing, when `a` or `b` is no vertex. The number of edge
    /// ends has to stay within `u64`, and the number of edges within `usize`.
    fn insert_edge(&mut self, label: E, a: VertexNumber, b: VertexNumber) -> (number: Result<
        EdgeNumber,
        EnceladusError,
    >)
        requires
            old(self).wf(),
            old(self).link_seq().len() < usize::MAX,
            2 * (old(self).link_seq().len() + 1) <= u64::MAX,
        ensures
            final(self).wf(),
            final(self).vertex_seq() == old(self).vertex_seq(),
            match number {
                Ok(edge) => {
                    &&& a < old(self).vertex_seq().len()
                    &&& b < old(self).vertex_seq().len()
                    &&& edge == old(self).link_seq().len()
                    &&& final(self).edge_seq() == old(self).edge_seq().push(label)
                    &&& final(self).link_seq() == old(self).link_seq().push((a, b))
                },
                Err(e) => {
                    &&& e == EnceladusError::VertexNotFound
                    &&& !(a < old(self).vertex_seq().len() && b < old(self).vertex_seq().len())
                    &&& *final(self) == *old(self)
                },
            },
    ;

    /// Removes `edge`. The edges behind it move one number down. Fails with
    /// `EdgeNotFound`, and changes nothing, when there is no such edge.
    fn remove_edge(&mut self, edge: EdgeNumber) -> (done: Result<(), EnceladusError>)
        requires
            old(self).wf(),
        ensures
            final(self).wf(),
            final(self).vertex_seq() == old(self).vertex_seq(),
            match done {
                Ok(()) => {
                    &&& edge < old(self).link_seq().len()
                    &&& final(self).edge_seq() == old(self).edge_seq().remove(edge as int)
                    &&& final(self).link_seq() == old(self).link_seq().remove(edge as int)
                },
                Err(e) => {
                    &&& e == EnceladusError::EdgeNotFound
                    &&& edge >= old(self).link_seq().len()
                    &&& *final(self) == *old(self)
                },
            },
    ;

    /// Returns the number of vertices.
    fn order(&self) -> (count: Result<usize, EnceladusError>)
        requires
            self.wf(),
        ensures
            count matches Ok(n) && n == self.vertex_seq().len(),
    ;

    /// Returns the number of edges.
    fn size(&self) -> (count: Result<usize, EnceladusError>)
        requires
            self.wf(),
        ensures
            count matches Ok(n) && n == self.link_seq().len(),
    ;

    /// Returns the degree of `vertex`: the number of edge ends at it, so that
    /// a self-loop counts twice. Fails with `VertexNotFound` when there is no
    /// such vertex.
    fn degree(&self, vertex: VertexNumber) -> (degree: Result<usize, EnceladusError>)
        requires
            self.wf(),
        ensures
            match degree {
                Ok(d) => vertex < self.vertex_seq().len() && d == degree_of(
                    self.link_seq(),
                    vertex as int,
                ) as u64 as usize,
                Err(e) => e == EnceladusError::VertexNotFound && vertex >= self.vertex_seq().len(),
            },
    ;

    /// Tells whether an edge joins `a` and `b`. Fails with `VertexNotFound`
    /// when `a` or `b` is no vertex.
    fn is_adjacent(&self, a: VertexNumber, b: VertexNumber) -> (adjacent: Result<
        bool,
        EnceladusError,
    >)
        requires
            self.wf(),
        ensures
            match adjacent {
                Ok(yes) => a < self.vertex_seq().len() && b < self.vertex_seq().len() && yes == (
                multiplicity(self.link_seq(), a as int, b as int) > 0),
                Err(e) => e == EnceladusError::VertexNotFound && !(a < self.vertex_seq().len() && b
                    < self.vertex_seq().len()),
            },
    ;

    /// Tells whether `vertex` is an endpoint of `edge`. Fails with
    /// `VertexNotFound` when there is no such vertex, else with
    /// `EdgeNotFound` when there is no such edge.
    fn is_incident(&self, vertex: VertexNumber, edge: EdgeNumber) -> (incident: Result<
        bool,
        EnceladusError,
    >)
        requires
            self.wf(),
        ensures
            incident == if vertex >= self.vertex_seq().len() {
                Err::<bool, EnceladusError>(EnceladusError::VertexNotFound)
            } else if edge >= self.link_seq().len() {
                Err::<bool, EnceladusError>(EnceladusError::EdgeNotFound)
            } else {
                Ok::<bool, EnceladusError>(touches(self.link_seq()[edge as int], vertex as int))
            },
    ;

    /// Returns the vertices that an edge joins to `vertex`, ascending. Fails
    /// with `VertexNotFound` when there is no such vertex.
    fn neighbours(&self, vertex: VertexNumber) -> (found: Result<
        Vec<VertexNumber>,
        EnceladusError,
    >)
        requires
            self.wf(),
        ensures
            match found {
                Ok(list) => vertex < self.vertex_seq().len() && list@ == neighbours_of(
                    self.link_seq(),
                    vertex as int,
                    self.vertex_seq().len(),
                ),
                Err(e) => e == EnceladusError::VertexNotFound && vertex >= self.vertex_seq().len(),
            },
    ;

    /// Returns the edges that have `vertex` as an endpoint, ascending. Fails
    /// with `VertexNotFound` when there is no such vertex.
    fn incident_edges(&self, vertex: VertexNumber) -> (found: Result<
        Vec<EdgeNumber>,
        EnceladusError,
    >)
        requires
            self.wf(),
        ensures
            match found {
                Ok(list) => vertex < self.vertex_seq().len() && list@ == incident_to(
                    self.link_seq(),
                    vertex as int,
                ),
                Err(e) => e == EnceladusError::VertexNotFound && vertex >= self.vertex_seq().len(),
            },
    ;

    /// Returns the endpoints of `edge` in the order in which they were
    /// given. Fails with `EdgeNotFound` when there is no such edge.
    fn endpoints(&self, edge: EdgeNumber) -> (found: Result<
        (VertexNumber, VertexNumber),
        EnceladusError,
    >)
        requires
            self.wf(),
        ensures
            found == if edge < self.link_seq().len() {
                Ok::<Link, EnceladusError>(self.link_seq()[edge as int])
            } else {
                Err::<Link, EnceladusError>(EnceladusError::EdgeNotFound)
            },
    ;

    /// Removes every vertex and every edge.
    fn clear(&mut self) -> (done: Result<(), EnceladusError>)
        ensures
            done == Ok::<(), EnceladusError>(()),
            final(self).wf(),
            final(self).vertex_seq() == Seq::<V>::empty(),
            final(self).edge_seq() == Seq::<E>::empty(),
            final(self).link_seq() == Seq::<Link>::empty(),
    ;
}

} // verus!
