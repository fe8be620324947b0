//! A graph kept as an adjacency matrix beside stores of labels and
//! endpoints.
//!
//! The cell `(a, b)` of the matrix holds the number of edges between `a` and
//! `b`; a self-loop on `a` counts twice in the cell `(a, a)`. The matrix is
//! square and symmetric, and the sum of a row is the degree of its vertex.

use std::fmt::Debug;
use vstd::prelude::*;
use vstd::std_specs::cmp::PartialEqSpec;

use crate::error::EnceladusError;
use crate::graph::{
    degree_of, incident_to, joins, kept, lemma_counts_lowered, lemma_counts_remove,
    lemma_degree_bounds, lemma_kept_concat, lemma_kept_untouched, lemma_multiplicity_symmetric,
    lemma_untouched, links_within, lowered_link, lowered_links, multiplicity, neighbours_of,
    touches, EdgeNumber, Graph, Link, VertexNumber,
};
use crate::map::covers_all;
use crate::store::DenseStore;

verus! {

/// A labelled multigraph with an adjacency matrix.
#[derive(Clone, Debug)]
pub struct AdjMatGraph<V, E> {
    num_vertices: usize,
    num_edges: usize,
    adjacency_matrix: Vec<Vec<u64>>,
    endpoints: DenseStore<Link>,
    vertex_labels: DenseStore<V>,
    edge_labels: DenseStore<E>,
}

/// The sum of the cells of a row.
pub open spec fn row_sum(row: Seq<u64>) -> nat
    decreases row.len(),
{
    if row.len() == 0 {
        0
    } else {
        row_sum(row.drop_last()) + row.last() as nat
    }
}

proof fn lemma_row_sum_concat(front: Seq<u64>, back: Seq<u64>)
    ensures
        row_sum(front + back) == row_sum(front) + row_sum(back),
    decreases back.len(),
{
    if back.len() == 0 {
        assert(front + back =~= front);
    } else {
        lemma_row_sum_concat(front, back.drop_last());
        assert((front + back).drop_last() =~= front + back.drop_last());
    }
}

/// The sum of a row around one of its cells.
proof fn lemma_row_sum_split(row: Seq<u64>, at: int)
    requires
        0 <= at < row.len(),
    ensures
        row_sum(row) == row_sum(row.take(at)) + row[at] + row_sum(row.skip(at + 1)),
        row_sum(row.remove(at)) == row_sum(row.take(at)) + row_sum(row.skip(at + 1)),
        row_sum(row.take(at + 1)) == row_sum(row.take(at)) + row[at],
{
    let one = seq![row[at]];
    assert(row =~= row.take(at) + one + row.skip(at + 1));
    assert(row.remove(at) =~= row.take(at) + row.skip(at + 1));
    assert(row.take(at + 1) =~= row.take(at) + one);
    lemma_row_sum_concat(row.take(at), one);
    lemma_row_sum_concat(row.take(at) + one, row.skip(at + 1));
    lemma_row_sum_concat(row.take(at), row.skip(at + 1));
    assert(one.drop_last() =~= Seq::<u64>::empty());
    assert(row_sum(one.drop_last()) == 0);
    assert(row_sum(one) == row[at]);
}

/// The sum of a row with one cell changed.
proof fn lemma_row_sum_update(row: Seq<u64>, at: int, cell: u64)
    requires
        0 <= at < row.len(),
    ensures
        row_sum(row.update(at, cell)) + row[at] == row_sum(row) + cell,
{
    let changed = row.update(at, cell);
    lemma_row_sum_split(row, at);
    lemma_row_sum_split(changed, at);
    assert(changed.take(at) =~= row.take(at));
    assert(changed.skip(at + 1) =~= row.skip(at + 1));
}

proof fn lemma_row_sum_zero(row: Seq<u64>)
    requires
        forall|i: int| 0 <= i < row.len() ==> #[trigger] row[i] == 0,
    ensures
        row_sum(row) == 0,
    decreases row.len(),
{
    if row.len() > 0 {
        assert forall|i: int| 0 <= i < row.drop_last().len() implies #[trigger] row.drop_last()[i]
            == 0 by {
            assert(row.drop_last()[i] == row[i]);
        }
        lemma_row_sum_zero(row.drop_last());
    }
}

proof fn lemma_row_sum_prefix(row: Seq<u64>, upto: int)
    requires
        0 <= upto <= row.len(),
    ensures
        row_sum(row.take(upto)) <= row_sum(row),
{
    assert(row =~= row.take(upto) + row.skip(upto));
    lemma_row_sum_concat(row.take(upto), row.skip(upto));
}

/// The matrix `cells` is square of side `order`, its cells count the edges
/// of `links` and its rows sum up to the degrees.
pub open spec fn matrix_of(cells: Seq<Seq<u64>>, links: Seq<Link>, order: nat) -> bool {
    &&& cells.len() == order
    &&& forall|a: int| 0 <= a < order ==> (#[trigger] cells[a]).len() == order
    &&& forall|a: int, b: int|
        0 <= a < order && 0 <= b < order ==> #[trigger] cells[a][b] == multiplicity(links, a, b)
    &&& forall|a: int| 0 <= a < order ==> row_sum(#[trigger] cells[a]) == degree_of(links, a)
}

/// The rows of a matrix, each by its cells.
pub open spec fn cells_of(matrix: Seq<Vec<u64>>) -> Seq<Seq<u64>> {
    Seq::new(matrix.len(), |a: int| matrix[a]@)
}

/// The number that the vertex with the number `number` had before `vertex`
/// was removed.
pub open spec fn raised(number: int, vertex: int) -> int {
    if number < vertex {
        number
    } else {
        number + 1
    }
}

/// Gives a square matrix one more column and one more row of zeros.
fn grow_matrix(matrix: &mut Vec<Vec<u64>>)
    requires
        old(matrix)@.len() < usize::MAX,
        forall|a: int|
            0 <= a < old(matrix)@.len() ==> (#[trigger] old(matrix)@[a])@.len() == old(matrix)@.len(),
    ensures
        final(matrix)@.len() == old(matrix)@.len() + 1,
        forall|a: int|
            0 <= a < old(matrix)@.len() ==> (#[trigger] final(matrix)@[a])@ == old(matrix)@[a]@.push(
                0,
            ),
        final(matrix)@[old(matrix)@.len() as int]@.len() == old(matrix)@.len() + 1,
        forall|b: int|
            0 <= b <= old(matrix)@.len() ==> #[trigger] final(matrix)@[old(matrix)@.len() as int]@[b]
                == 0,
{
    let order = matrix.len();
    let ghost rows = matrix@;
    let mut i: usize = 0;
    while i < order
        invariant
            i <= order,
            matrix@.len() == order,
            rows.len() == order,
            forall|a: int| 0 <= a < i ==> (#[trigger] matrix@[a])@ == rows[a]@.push(0),
            forall|a: int| i <= a < order ==> (#[trigger] matrix@[a]) == rows[a],
        decreases order - i,
    {
        matrix[i].push(0);
        i += 1;
    }
    let mut new_row: Vec<u64> = Vec::new();
    let mut j: usize = 0;
    while j <= order
        invariant
            j <= order + 1,
            order < usize::MAX,
            new_row@.len() == j,
            forall|b: int| 0 <= b < j ==> #[trigger] new_row@[b] == 0,
        decreases order + 1 - j,
    {
        new_row.push(0);
        j += 1;
    }
    matrix.push(new_row);
}

/// Takes the row and the column of `vertex` out of a square matrix.
fn shrink_matrix(matrix: &mut Vec<Vec<u64>>, vertex: VertexNumber)
    requires
        vertex < old(matrix)@.len(),
        forall|a: int|
            0 <= a < old(matrix)@.len() ==> (#[trigger] old(matrix)@[a])@.len() == old(matrix)@.len(),
    ensures
        final(matrix)@.len() == old(matrix)@.len() - 1,
        forall|a: int|
            0 <= a < final(matrix)@.len() ==> (#[trigger] final(matrix)@[a])@ == old(
                matrix,
            )@[raised(a, vertex as int)]@.remove(vertex as int),
{
    let ghost rows = matrix@;
    let _ = matrix.remove(vertex);
    let count = matrix.len();
    let mut i: usize = 0;
    while i < count
        invariant
            i <= count,
            count == rows.len() - 1,
            matrix@.len() == count,
            vertex < rows.len(),
            forall|a: int| 0 <= a < rows.len() ==> (#[trigger] rows[a])@.len() == rows.len(),
            forall|a: int|
                0 <= a < i ==> (#[trigger] matrix@[a])@ == rows[raised(a, vertex as int)]@.remove(
                    vertex as int,
                ),
            forall|a: int|
                i <= a < count ==> (#[trigger] matrix@[a]) == rows[raised(a, vertex as int)],
        decreases count - i,
    {
        let _ = matrix[i].remove(vertex);
        i += 1;
    }
}

/// Renumbers the endpoints of every edge for the removal of `vertex`.
fn renumber(endpoints: &mut DenseStore<Link>, vertex: VertexNumber)
    requires
        old(endpoints).wf(),
    ensures
        final(endpoints).wf(),
        final(endpoints)@ == lowered_links(old(endpoints)@, vertex as int),
{
    let ghost links = endpoints@;
    let count = endpoints.len();
    let mut edge: usize = 0;
    while edge < count
        invariant
            edge <= count,
            endpoints.wf(),
            count == links.len(),
            endpoints@.len() == links.len(),
            forall|k: int|
                0 <= k < edge ==> #[trigger] endpoints@[k] == lowered_link(links[k], vertex as int),
            forall|k: int| edge <= k < links.len() ==> #[trigger] endpoints@[k] == links[k],
        decreases count - edge,
    {
        let (a, b) = *endpoints.at(edge);
        let lower_a = if a > vertex {
            a - 1
        } else {
            a
        };
        let lower_b = if b > vertex {
            b - 1
        } else {
            b
        };
        let _ = endpoints.set(edge, (lower_a, lower_b));
        edge += 1;
    }
    proof {
        assert(endpoints@ =~= lowered_links(links, vertex as int));
    }
}

impl<V: Clone + Eq + Debug, E: Clone + Eq + Debug> AdjMatGraph<V, E> {
    /// The adjacency matrix, row by row.
    pub closed spec fn adjacency(&self) -> Seq<Seq<u64>> {
        cells_of(self.adjacency_matrix@)
    }

    /// The adjacency matrix is square of the graph's order, its cell `(a, b)`
    /// counts the edges between `a` and `b`, it is symmetric, and the sum of
    /// its row `a` is the degree of `a`.
    pub proof fn lemma_adjacency(&self)
        requires
            self.wf(),
        ensures
            matrix_of(self.adjacency(), self.link_seq(), self.vertex_seq().len()),
            forall|a: int, b: int|
                0 <= a < self.vertex_seq().len() && 0 <= b < self.vertex_seq().len()
                    ==> #[trigger] self.adjacency()[a][b] == self.adjacency()[b][a],
    {
        let order = self.vertex_seq().len();
        assert forall|a: int, b: int| 0 <= a < order && 0 <= b < order implies #[trigger]
            self.adjacency()[a][b] == self.adjacency()[b][a] by {
            lemma_multiplicity_symmetric(self.link_seq(), a, b);
            assert(self.adjacency()[a][b] == multiplicity(self.link_seq(), a, b));
            assert(self.adjacency()[b][a] == multiplicity(self.link_seq(), b, a));
        }
    }

    /// Returns the adjacency matrix.
    pub fn adjacency_matrix(&self) -> (matrix: &Vec<Vec<u64>>)
        ensures
            matrix@.len() == self.adjacency().len(),
            forall|a: int| 0 <= a < matrix@.len() ==> (#[trigger] matrix@[a])@ == self.adjacency()[a],
    {
        &self.adjacency_matrix
    }

    /// The rows of the matrix as they stand in memory.
    proof fn lemma_cells(&self)
        ensures
            self.adjacency().len() == self.adjacency_matrix@.len(),
            forall|a: int|
                0 <= a < self.adjacency_matrix@.len() ==> #[trigger] self.adjacency()[a]
                    == self.adjacency_matrix@[a]@,
            forall|a: int|
                0 <= a < self.adjacency_matrix@.len() ==> (#[trigger] self.adjacency_matrix@[a])@
                    == self.adjacency()[a],
    {
    }

    /// The invariant of the graph but for what ties the matrix to the
    /// edges.
    spec fn stores_wf(&self) -> bool {
        &&& self.vertex_labels.wf()
        &&& self.edge_labels.wf()
        &&& self.endpoints.wf()
        &&& self.num_vertices == self.vertex_labels@.len()
        &&& self.num_edges == self.edge_labels@.len()
        &&& self.num_edges == self.endpoints@.len()
        &&& 2 * self.num_edges <= u64::MAX
        &&& links_within(self.endpoints@, self.num_vertices as nat)
    }

    /// The endpoints of `edge`, which has to be there.
    fn link(&self, edge: EdgeNumber) -> (link: Link)
        requires
            self.endpoints.wf(),
            edge < self.endpoints@.len(),
        ensures
            link == self.endpoints@[edge as int],
    {
        *self.endpoints.at(edge)
    }

    /// Adds `by` to the cell `(a, b)` of the matrix.
    fn raise_cell(&mut self, a: VertexNumber, b: VertexNumber)
        requires
            a < old(self).adjacency_matrix@.len(),
            b < old(self).adjacency_matrix@[a as int]@.len(),
            old(self).adjacency_matrix@[a as int]@[b as int] < u64::MAX,
        ensures
            final(self).num_vertices == old(self).num_vertices,
            final(self).num_edges == old(self).num_edges,
            final(self).endpoints == old(self).endpoints,
            final(self).vertex_labels == old(self).vertex_labels,
            final(self).edge_labels == old(self).edge_labels,
            final(self).adjacency() == old(self).adjacency().update(
                a as int,
                old(self).adjacency()[a as int].update(
                    b as int,
                    (old(self).adjacency()[a as int][b as int] + 1) as u64,
                ),
            ),
    {
        let cell = self.adjacency_matrix[a][b];
        self.adjacency_matrix[a][b] = cell + 1;
        proof {
            assert(self.adjacency() =~= old(self).adjacency().update(
                a as int,
                old(self).adjacency()[a as int].update(
                    b as int,
                    (old(self).adjacency()[a as int][b as int] + 1) as u64,
                ),
            ));
        }
    }

    /// Takes one from the cell `(a, b)` of the matrix.
    fn lower_cell(&mut self, a: VertexNumber, b: VertexNumber)
        requires
            a < old(self).adjacency_matrix@.len(),
            b < old(self).adjacency_matrix@[a as int]@.len(),
            old(self).adjacency_matrix@[a as int]@[b as int] > 0,
        ensures
            final(self).num_vertices == old(self).num_vertices,
            final(self).num_edges == old(self).num_edges,
            final(self).endpoints == old(self).endpoints,
            final(self).vertex_labels == old(self).vertex_labels,
            final(self).edge_labels == old(self).edge_labels,
            final(self).adjacency() == old(self).adjacency().update(
                a as int,
                old(self).adjacency()[a as int].update(
                    b as int,
                    (old(self).adjacency()[a as int][b as int] - 1) as u64,
                ),
            ),
    {
        let cell = self.adjacency_matrix[a][b];
        self.adjacency_matrix[a][b] = cell - 1;
        proof {
            assert(self.adjacency() =~= old(self).adjacency().update(
                a as int,
                old(self).adjacency()[a as int].update(
                    b as int,
                    (old(self).adjacency()[a as int][b as int] - 1) as u64,
                ),
            ));
        }
    }
}

impl<V: Clone + Eq + Debug, E: Clone + Eq + Debug> AdjMatGraph<V, E> {
    /// Removes every edge that touches `vertex`, the last one first, so that
    /// the numbers of the edges still to be looked at stay as they are.
    fn prune(&mut self, vertex: VertexNumber)
        requires
            old(self).wf(),
            vertex < old(self).num_vertices,
        ensures
            final(self).wf(),
            final(self).num_vertices == old(self).num_vertices,
            final(self).vertex_labels@ == old(self).vertex_labels@,
            final(self).edge_labels@ == kept(
                old(self).edge_labels@,
                old(self).endpoints@,
                vertex as int,
            ),
            final(self).endpoints@ == kept(
                old(self).endpoints@,
                old(self).endpoints@,
                vertex as int,
            ),
    {
        let ghost links = self.endpoints@;
        let ghost labels = self.edge_labels@;
        let mut edge = self.num_edges;
        proof {
            assert(links.take(edge as int) =~= links);
            assert(labels.take(edge as int) =~= labels);
            assert(links.skip(edge as int) =~= Seq::<Link>::empty());
            assert(labels.skip(edge as int) =~= Seq::<E>::empty());
            assert(links + Seq::<Link>::empty() =~= links);
            assert(labels + Seq::<E>::empty() =~= labels);
        }
        while edge > 0
            invariant
                self.wf(),
                self.num_vertices == old(self).num_vertices,
                self.vertex_labels@ == old(self).vertex_labels@,
                edge <= links.len(),
                labels.len() == links.len(),
                self.endpoints@ == links.take(edge as int) + kept(
                    links.skip(edge as int),
                    links.skip(edge as int),
                    vertex as int,
                ),
                self.edge_labels@ == labels.take(edge as int) + kept(
                    labels.skip(edge as int),
                    links.skip(edge as int),
                    vertex as int,
                ),
            decreases edge,
        {
            let ghost upper = edge as int;
            edge -= 1;
            let ghost now_links = self.endpoints@;
            let ghost now_labels = self.edge_labels@;
            let ghost kept_links = kept(links.skip(upper), links.skip(upper), vertex as int);
            let ghost kept_labels = kept(labels.skip(upper), links.skip(upper), vertex as int);
            let (a, b) = self.link(edge);
            proof {
                let one_link = seq![links[edge as int]];
                let one_label = seq![labels[edge as int]];
                assert(links.skip(edge as int) =~= one_link + links.skip(upper));
                assert(labels.skip(edge as int) =~= one_label + labels.skip(upper));
                lemma_kept_concat(one_link, links.skip(upper), one_link, links.skip(upper), vertex as int);
                lemma_kept_concat(one_label, labels.skip(upper), one_link, links.skip(upper), vertex as int);
                assert(one_link.drop_last() =~= Seq::<Link>::empty());
                assert(one_label.drop_last() =~= Seq::<E>::empty());
                assert(kept(one_link.drop_last(), one_link.drop_last(), vertex as int)
                    =~= Seq::<Link>::empty());
                assert(kept(one_label.drop_last(), one_link.drop_last(), vertex as int)
                    =~= Seq::<E>::empty());
                assert(now_links[edge as int] == links[edge as int]);
                if touches(links[edge as int], vertex as int) {
                    assert(now_links.remove(edge as int) =~= links.take(edge as int) + kept_links);
                    assert(now_labels.remove(edge as int) =~= labels.take(edge as int)
                        + kept_labels);
                    assert(Seq::<Link>::empty() + kept_links =~= kept_links);
                    assert(Seq::<E>::empty() + kept_labels =~= kept_labels);
                } else {
                    assert(now_links =~= links.take(edge as int) + (one_link + kept_links));
                    assert(now_labels =~= labels.take(edge as int) + (one_label + kept_labels));
                    assert(Seq::<Link>::empty().push(links[edge as int]) =~= one_link);
                    assert(Seq::<E>::empty().push(labels[edge as int]) =~= one_label);
                }
            }
            if a == vertex || b == vertex {
                let _ = self.remove_edge(edge);
            }
        }
        proof {
            assert(links.skip(0) =~= links);
            assert(labels.skip(0) =~= labels);
            assert(links.take(0) =~= Seq::<Link>::empty());
            assert(labels.take(0) =~= Seq::<E>::empty());
            assert(Seq::<Link>::empty() + kept(links, links, vertex as int) =~= kept(
                links,
                links,
                vertex as int,
            ));
            assert(Seq::<E>::empty() + kept(labels, links, vertex as int) =~= kept(
                labels,
                links,
                vertex as int,
            ));
        }
    }

    /// Removes `vertex`, which no edge touches any more: its label, its row
    /// and its column go, and the endpoints of the edges are renumbered.
    fn detach(&mut self, vertex: VertexNumber)
        requires
            old(self).wf(),
            vertex < old(self).num_vertices,
            forall|e: int|
                0 <= e < old(self).endpoints@.len() ==> !touches(
                    #[trigger] old(self).endpoints@[e],
                    vertex as int,
                ),
        ensures
            final(self).wf(),
            final(self).vertex_labels@ == old(self).vertex_labels@.remove(vertex as int),
            final(self).edge_labels@ == old(self).edge_labels@,
            final(self).endpoints@ == lowered_links(old(self).endpoints@, vertex as int),
    {
        let ghost cells = self.adjacency();
        let ghost links = self.endpoints@;
        let ghost order = self.num_vertices as int;
        proof {
            self.lemma_cells();
        }
        if self.num_vertices == 1 {
            proof {
                if links.len() > 0 {
                    assert(touches(links[0], vertex as int));
                }
                assert(lowered_links(links, vertex as int) =~= links);
                assert(self.vertex_labels@.remove(vertex as int) =~= Seq::<V>::empty());
            }
            self.adjacency_matrix = Vec::new();
            self.vertex_labels = DenseStore::new();
            self.num_vertices = 0;
            proof {
                assert(self.adjacency() =~= Seq::<Seq<u64>>::empty());
            }
            return ;
        }
        let _ = self.vertex_labels.remove_at(vertex);
        shrink_matrix(&mut self.adjacency_matrix, vertex);
        self.num_vertices -= 1;
        renumber(&mut self.endpoints, vertex);
        proof {
            self.lemma_cells();
            let shrunk = self.adjacency();
            let fewer = lowered_links(links, vertex as int);
            assert(self.endpoints@ =~= fewer);
            assert forall|a: int| 0 <= a < order - 1 implies (#[trigger] shrunk[a]).len() == order
                - 1 && shrunk[a] == cells[raised(a, vertex as int)].remove(vertex as int) by {
                assert(shrunk[a] == self.adjacency_matrix@[a]@);
            }
            assert forall|a: int, b: int| 0 <= a < order - 1 && 0 <= b < order - 1 implies #[trigger]
                shrunk[a][b] == multiplicity(fewer, a, b) by {
                let from_a = raised(a, vertex as int);
                let from_b = raised(b, vertex as int);
                lemma_counts_lowered(links, vertex as int, from_a, from_b);
                assert(shrunk[a] == cells[from_a].remove(vertex as int));
                assert(cells[from_a][from_b] == multiplicity(links, from_a, from_b));
            }
            assert forall|a: int| 0 <= a < order - 1 implies row_sum(#[trigger] shrunk[a])
                == degree_of(fewer, a) by {
                let from_a = raised(a, vertex as int);
                lemma_counts_lowered(links, vertex as int, from_a, from_a);
                lemma_untouched(links, vertex as int, from_a);
                lemma_row_sum_split(cells[from_a], vertex as int);
                assert(shrunk[a] == cells[from_a].remove(vertex as int));
                assert(cells[from_a][vertex as int] == multiplicity(links, from_a, vertex as int));
                assert(row_sum(cells[from_a]) == degree_of(links, from_a));
            }
            assert forall|e: int| 0 <= e < fewer.len() implies (#[trigger] fewer[e]).0 < order - 1
                && fewer[e].1 < order - 1 by {
                assert(!touches(links[e], vertex as int));
                assert(links[e].0 < order && links[e].1 < order);
            }
        }
    }
}

impl<V: Clone + Eq + Debug, E: Clone + Eq + Debug> Graph<V, E> for AdjMatGraph<V, E> {
    /// The invariant of the graph: the counts agree with the stores, every
    /// edge joins vertices of the graph, and the matrix is square, counts the
    /// edges and has the degrees as its row sums.
    closed spec fn wf(&self) -> bool {
        &&& self.stores_wf()
        &&& matrix_of(self.adjacency(), self.endpoints@, self.num_vertices as nat)
    }

    closed spec fn vertex_seq(&self) -> Seq<V> {
        self.vertex_labels@
    }

    closed spec fn edge_seq(&self) -> Seq<E> {
        self.edge_labels@
    }

    closed spec fn link_seq(&self) -> Seq<Link> {
        self.endpoints@
    }

    proof fn lemma_shape(&self) {
    }

    fn new() -> (graph: Self) {
        let graph = AdjMatGraph {
            num_vertices: 0,
            num_edges: 0,
            adjacency_matrix: Vec::new(),
            endpoints: DenseStore::new(),
            vertex_labels: DenseStore::new(),
            edge_labels: DenseStore::new(),
        };
        proof {
            assert(graph.adjacency() =~= Seq::<Seq<u64>>::empty());
        }
        graph
    }

    fn get_vertex(&self, vertex: VertexNumber) -> (found: Result<Option<&V>, EnceladusError>) {
        self.vertex_labels.get(vertex)
    }

    fn get_mut_vertex(&mut self, vertex: VertexNumber) -> (found: Result<
        Option<&mut V>,
        EnceladusError,
    >) {
        self.vertex_labels.get_mut(vertex)
    }

    fn set_vertex(&mut self, vertex: VertexNumber, label: V) -> (done: Result<(), EnceladusError>) {
        self.vertex_labels.set(vertex, label)
    }

    fn get_edge(&self, edge: EdgeNumber) -> (found: Result<Option<&E>, EnceladusError>) {
        self.edge_labels.get(edge)
    }

    fn get_mut_edge(&mut self, edge: EdgeNumber) -> (found: Result<Option<&mut E>, EnceladusError>) {
        self.edge_labels.get_mut(edge)
    }

    fn set_edge(&mut self, edge: EdgeNumber, label: E) -> (done: Result<(), EnceladusError>) {
        self.edge_labels.set(edge, label)
    }

    fn insert_vertex(&mut self, label: V) -> (number: Result<VertexNumber, EnceladusError>)
        ensures
            final(self).adjacency().len() == old(self).adjacency().len() + 1,
    {
        let ghost cells = self.adjacency();
        let ghost links = self.endpoints@;
        let order = self.num_vertices;
        proof {
            self.lemma_cells();
        }
        self.vertex_labels.push(label);
        grow_matrix(&mut self.adjacency_matrix);
        self.num_vertices += 1;
        proof {
            self.lemma_cells();
            let grown = self.adjacency();
            assert forall|a: int| 0 <= a <= order implies (#[trigger] grown[a]).len() == order
                + 1 by {
                if a < order {
                    assert(grown[a] == cells[a].push(0));
                }
            }
            assert forall|a: int, b: int| 0 <= a <= order && 0 <= b <= order implies #[trigger]
                grown[a][b] == multiplicity(links, a, b) by {
                lemma_untouched(links, order as int, a);
                lemma_untouched(links, order as int, b);
                if a < order && b < order {
                    assert(grown[a] == cells[a].push(0));
                    assert(grown[a][b] == cells[a][b]);
                }
            }
            assert forall|a: int| 0 <= a <= order implies row_sum(#[trigger] grown[a]) == degree_of(
                links,
                a,
            ) by {
                lemma_untouched(links, order as int, a);
                if a < order {
                    assert(grown[a] =~= cells[a].push(0));
                    assert(cells[a].push(0).drop_last() =~= cells[a]);
                } else {
                    lemma_row_sum_zero(grown[a]);
                }
            }
        }
        Ok(self.num_vertices - 1)
    }

    fn remove_vertex(&mut self, vertex: VertexNumber) -> (done: Result<(), EnceladusError>) {
        if !self.vertex_labels.contains(vertex) {
            return Err(EnceladusError::VertexNotFound);
        }
        proof {
            lemma_kept_untouched(self.edge_labels@, self.endpoints@, vertex as int);
            lemma_kept_untouched(self.endpoints@, self.endpoints@, vertex as int);
        }
        self.prune(vertex);
        self.detach(vertex);
        Ok(())
    }

    fn insert_edge(&mut self, label: E, a: VertexNumber, b: VertexNumber) -> (number: Result<
        EdgeNumber,
        EnceladusError,
    >) {
        if !(self.vertex_labels.contains(a) && self.vertex_labels.contains(b)) {
            return Err(EnceladusError::VertexNotFound);
        }
        let ghost cells = self.adjacency();
        let ghost links = self.endpoints@;
        let ghost order = self.num_vertices as int;
        self.edge_labels.push(label);
        self.endpoints.push((a, b));
        proof {
            self.lemma_cells();
            lemma_degree_bounds(links, a as int, b as int);
            lemma_degree_bounds(links, b as int, a as int);
            lemma_multiplicity_symmetric(links, a as int, b as int);
            assert(links.push((a, b)).drop_last() =~= links);
            assert(cells[a as int][b as int] == multiplicity(links, a as int, b as int));
            assert(cells[b as int][a as int] == multiplicity(links, b as int, a as int));
        }
        self.raise_cell(a, b);
        proof {
            self.lemma_cells();
        }
        self.raise_cell(b, a);
        self.num_edges += 1;
        proof {
            let grown = self.adjacency();
            let more = self.endpoints@;
            assert(more.drop_last() =~= links);
            assert forall|x: int, y: int| 0 <= x < order && 0 <= y < order implies #[trigger]
                grown[x][y] == multiplicity(more, x, y) by {
                assert(cells[x][y] == multiplicity(links, x, y));
            }
            assert forall|x: int| 0 <= x < order implies row_sum(#[trigger] grown[x]) == degree_of(
                more,
                x,
            ) by {
                assert(row_sum(cells[x]) == degree_of(links, x));
                let once = cells[a as int].update(b as int, (cells[a as int][b as int] + 1) as u64);
                lemma_row_sum_update(cells[a as int], b as int, once[b as int]);
                if a == b {
                    lemma_row_sum_update(once, a as int, (once[a as int] + 1) as u64);
                } else {
                    lemma_row_sum_update(
                        cells[b as int],
                        a as int,
                        (cells[b as int][a as int] + 1) as u64,
                    );
                }
            }
        }
        Ok(self.num_edges - 1)
    }

    fn remove_edge(&mut self, edge: EdgeNumber) -> (done: Result<(), EnceladusError>) {
        if !self.edge_labels.contains(edge) {
            return Err(EnceladusError::EdgeNotFound);
        }
        let ghost cells = self.adjacency();
        let ghost links = self.endpoints@;
        let ghost order = self.num_vertices as int;
        let _ = self.edge_labels.remove_at(edge);
        let (a, b) = self.link(edge);
        let _ = self.endpoints.remove_at(edge);
        proof {
            self.lemma_cells();
            lemma_counts_remove(links, edge as int, a as int, b as int);
            lemma_counts_remove(links, edge as int, b as int, a as int);
            assert(links[edge as int].0 < order && links[edge as int].1 < order);
            assert(cells[a as int][b as int] == multiplicity(links, a as int, b as int));
            assert(cells[b as int][a as int] == multiplicity(links, b as int, a as int));
        }
        self.lower_cell(a, b);
        proof {
            self.lemma_cells();
        }
        self.lower_cell(b, a);
        self.num_edges -= 1;
        proof {
            let shrunk = self.adjacency();
            let fewer = self.endpoints@;
            assert forall|x: int, y: int| 0 <= x < order && 0 <= y < order implies #[trigger]
                shrunk[x][y] == multiplicity(fewer, x, y) by {
                lemma_counts_remove(links, edge as int, x, y);
                assert(cells[x][y] == multiplicity(links, x, y));
            }
            assert forall|x: int| 0 <= x < order implies row_sum(#[trigger] shrunk[x]) == degree_of(
                fewer,
                x,
            ) by {
                lemma_counts_remove(links, edge as int, x, x);
                assert(row_sum(cells[x]) == degree_of(links, x));
                let once = cells[a as int].update(b as int, (cells[a as int][b as int] - 1) as u64);
                lemma_row_sum_update(cells[a as int], b as int, once[b as int]);
                if a == b {
                    lemma_row_sum_update(once, a as int, (once[a as int] - 1) as u64);
                } else {
                    lemma_row_sum_update(
                        cells[b as int],
                        a as int,
                        (cells[b as int][a as int] - 1) as u64,
                    );
                }
            }
            assert forall|e: int| 0 <= e < fewer.len() implies (#[trigger] fewer[e]).0 < order
                && fewer[e].1 < order by {
                if e < edge {
                    assert(fewer[e] == links[e]);
                } else {
                    assert(fewer[e] == links[e + 1]);
                }
            }
        }
        Ok(())
    }

    fn order(&self) -> (count: Result<usize, EnceladusError>) {
        Ok(self.num_vertices)
    }

    fn size(&self) -> (count: Result<usize, EnceladusError>) {
        Ok(self.num_edges)
    }

    fn degree(&self, vertex: VertexNumber) -> (degree: Result<usize, EnceladusError>) {
        if !self.vertex_labels.contains(vertex) {
            return Err(EnceladusError::VertexNotFound);
        }
        proof {
            self.lemma_cells();
        }
        let row = &self.adjacency_matrix[vertex];
        let mut degree: u64 = 0;
        let mut i: usize = 0;
        proof {
            lemma_degree_bounds(self.endpoints@, vertex as int, 0);
            assert(row@ == self.adjacency()[vertex as int]);
            assert(row@.take(0) =~= Seq::<u64>::empty());
        }
        while i < self.num_vertices
            invariant
                i <= self.num_vertices,
                row@.len() == self.num_vertices,
                degree == row_sum(row@.take(i as int)),
                row_sum(row@) <= u64::MAX,
            decreases self.num_vertices - i,
        {
            proof {
                lemma_row_sum_split(row@, i as int);
                lemma_row_sum_prefix(row@, i + 1);
            }
            degree += row[i];
            i += 1;
        }
        proof {
            assert(row@.take(i as int) =~= row@);
        }
        Ok(
            #[verifier::truncate]
            (degree as usize),
        )
    }

    fn is_adjacent(&self, a: VertexNumber, b: VertexNumber) -> (adjacent: Result<
        bool,
        EnceladusError,
    >) {
        if !(self.vertex_labels.contains(a) && self.vertex_labels.contains(b)) {
            return Err(EnceladusError::VertexNotFound);
        }
        proof {
            self.lemma_cells();
            assert(self.adjacency()[a as int][b as int] == multiplicity(
                self.endpoints@,
                a as int,
                b as int,
            ));
        }
        Ok(self.adjacency_matrix[a][b] > 0)
    }

    fn is_incident(&self, vertex: VertexNumber, edge: EdgeNumber) -> (incident: Result<
        bool,
        EnceladusError,
    >) {
        if !self.vertex_labels.contains(vertex) {
            return Err(EnceladusError::VertexNotFound);
        }
        if !self.edge_labels.contains(edge) {
            return Err(EnceladusError::EdgeNotFound);
        }
        let (a, b) = self.link(edge);
        Ok(vertex == a || vertex == b)
    }

    fn neighbours(&self, vertex: VertexNumber) -> (found: Result<
        Vec<VertexNumber>,
        EnceladusError,
    >) {
        if !self.vertex_labels.contains(vertex) {
            return Err(EnceladusError::VertexNotFound);
        }
        let mut neighbours: Vec<VertexNumber> = Vec::new();
        let mut i: usize = 0;
        while i < self.num_vertices
            invariant
                self.wf(),
                vertex < self.num_vertices,
                i <= self.num_vertices,
                neighbours@ == neighbours_of(self.endpoints@, vertex as int, i as nat),
            decreases self.num_vertices - i,
        {
            proof {
                self.lemma_cells();
                assert(self.adjacency()[vertex as int][i as int] == multiplicity(
                    self.endpoints@,
                    vertex as int,
                    i as int,
                ));
            }
            if self.adjacency_matrix[vertex][i] > 0 {
                neighbours.push(i);
            }
            i += 1;
        }
        Ok(neighbours)
    }

    fn incident_edges(&self, vertex: VertexNumber) -> (found: Result<
        Vec<EdgeNumber>,
        EnceladusError,
    >) {
        if !self.vertex_labels.contains(vertex) {
            return Err(EnceladusError::VertexNotFound);
        }
        let mut edges: Vec<EdgeNumber> = Vec::new();
        let mut i: usize = 0;
        proof {
            assert(self.endpoints@.take(0) =~= Seq::<Link>::empty());
        }
        while i < self.num_edges
            invariant
                self.wf(),
                i <= self.num_edges,
                edges@ == incident_to(self.endpoints@.take(i as int), vertex as int),
            decreases self.num_edges - i,
        {
            let (a, b) = self.link(i);
            proof {
                assert(self.endpoints@.take(i + 1).drop_last() =~= self.endpoints@.take(i as int));
            }
            if vertex == a || vertex == b {
                edges.push(i);
            }
            i += 1;
        }
        proof {
            assert(self.endpoints@.take(i as int) =~= self.endpoints@);
        }
        Ok(edges)
    }

    fn endpoints(&self, edge: EdgeNumber) -> (found: Result<
        (VertexNumber, VertexNumber),
        EnceladusError,
    >) {
        if !self.edge_labels.contains(edge) {
            return Err(EnceladusError::EdgeNotFound);
        }
        Ok(self.link(edge))
    }

    fn clear(&mut self) -> (done: Result<(), EnceladusError>) {
        self.vertex_labels.clear();
        self.edge_labels.clear();
        self.adjacency_matrix.clear();
        self.endpoints.clear();
        self.num_vertices = 0;
        self.num_edges = 0;
        proof {
            assert(self.adjacency() =~= Seq::<Seq<u64>>::empty());
        }
        Ok(())
    }
}

impl<V: Clone + Eq + Debug, E: Clone + Eq + Debug> AdjMatGraph<V, E> {
    /// Whether the two graphs are equal field by field: the same counts,
    /// equal matrices and equal stores.
    pub closed spec fn same_as(&self, other: &Self) -> bool {
        &&& self.num_vertices == other.num_vertices
        &&& self.num_edges == other.num_edges
        &&& self.adjacency_matrix.eq_spec(&other.adjacency_matrix)
        &&& self.endpoints.eq_spec(&other.endpoints)
        &&& self.vertex_labels.eq_spec(&other.vertex_labels)
        &&& self.edge_labels.eq_spec(&other.edge_labels)
    }
}

impl<V: Clone + Eq + Debug, E: Clone + Eq + Debug> PartialEq for AdjMatGraph<V, E> {
    fn eq(&self, other: &Self) -> (equal: bool) {
        let counts = self.num_vertices == other.num_vertices && self.num_edges == other.num_edges;
        let cells = self.adjacency_matrix == other.adjacency_matrix;
        let links = self.endpoints == other.endpoints;
        let vertices = self.vertex_labels == other.vertex_labels;
        let edges = self.edge_labels == other.edge_labels;
        proof {
            assert(cells == self.adjacency_matrix.eq_spec(&other.adjacency_matrix));
            assert(links == self.endpoints.eq_spec(&other.endpoints));
            if V::obeys_eq_spec() && E::obeys_eq_spec() {
                assert(vertices == self.vertex_labels.eq_spec(&other.vertex_labels));
                assert(edges == self.edge_labels.eq_spec(&other.edge_labels));
            }
        }
        counts && cells && links && vertices && edges
    }
}

impl<V: Clone + Eq + Debug, E: Clone + Eq + Debug> vstd::std_specs::cmp::PartialEqSpecImpl for AdjMatGraph<V, E> {
    open spec fn obeys_eq_spec() -> bool {
        V::obeys_eq_spec() && E::obeys_eq_spec()
    }

    open spec fn eq_spec(&self, other: &Self) -> bool {
        self.same_as(other)
    }
}

impl<V: Clone + Eq + Debug, E: Clone + Eq + Debug> Eq for AdjMatGraph<V, E> {

}

impl<V: Clone + Eq + Debug, E: Clone + Eq + Debug> AdjMatGraph<V, E> {
    /// The two graphs have as many vertices and as many edges, equal
    /// adjacency matrices, and each vertex label, edge label and pair of
    /// endpoints of one equals one of the other.
    pub open spec fn alike(&self, other: &Self) -> bool {
        &&& self.vertex_seq().len() == other.vertex_seq().len()
        &&& self.link_seq().len() == other.link_seq().len()
        &&& self.adjacency() == other.adjacency()
        &&& covers_all(self.vertex_seq(), other.vertex_seq())
        &&& covers_all(other.vertex_seq(), self.vertex_seq())
        &&& covers_all(self.edge_seq(), other.edge_seq())
        &&& covers_all(other.edge_seq(), self.edge_seq())
        &&& covers_all(self.link_seq(), other.link_seq())
        &&& covers_all(other.link_seq(), self.link_seq())
    }

    /// What the equality of two graphs amounts to.
    pub proof fn lemma_equality(&self, other: &Self)
        requires
            self.wf(),
            other.wf(),
        ensures
            self.same_as(other) <==> self.alike(other),
    {
        self.vertex_labels.lemma_equality(&other.vertex_labels);
        self.edge_labels.lemma_equality(&other.edge_labels);
        self.endpoints.lemma_equality(&other.endpoints);
        self.lemma_cells();
        other.lemma_cells();
        let here = self.adjacency_matrix;
        let there = other.adjacency_matrix;
        if here.eq_spec(&there) {
            assert forall|a: int| 0 <= a < here@.len() implies self.adjacency()[a]
                == other.adjacency()[a] by {
                assert(here[a].eq_spec(&there[a]));
                assert forall|b: int| 0 <= b < here[a]@.len() implies here[a]@[b] == there[a]@[b] by {
                    assert(here[a][b].eq_spec(&there[a][b]));
                }
                assert(here[a]@ =~= there[a]@);
            }
            assert(self.adjacency() =~= other.adjacency());
        }
        if self.adjacency() == other.adjacency() {
            assert(here@.len() == there@.len());
            assert forall|a: int| 0 <= a < here.len() implies (#[trigger] here[a]).eq_spec(
                &there[a],
            ) by {
                assert(self.adjacency()[a] == other.adjacency()[a]);
                assert(here[a]@ == there[a]@);
                assert forall|b: int| 0 <= b < here[a].len() implies (#[trigger] here[a][b]).eq_spec(
                    &there[a][b],
                ) by {
                    assert(here[a]@[b] == there[a]@[b]);
                }
            }
            assert(here.eq_spec(&there));
        }
    }
}

} // verus!
