use enceladus::adjmat_graph::AdjMatGraph;
use enceladus::error::EnceladusError;
use enceladus::graph::{EdgeNumber, Graph, VertexNumber};

#[test]
fn adjmat_graph_test_new_normal() {
    let actual_graph: AdjMatGraph<u64, u64> = AdjMatGraph::new();

    let expected_matrix: Vec<Vec<u64>> = vec![];

    assert_eq!(actual_graph.order(), Ok(0));
    assert_eq!(actual_graph.size(), Ok(0));
    assert_eq!(actual_graph.adjacency_matrix(), &expected_matrix);
    assert_eq!(actual_graph.get_vertex(0), Ok(None));
    assert_eq!(actual_graph.get_edge(0), Ok(None));
    assert_eq!(actual_graph.endpoints(0), Err(EnceladusError::EdgeNotFound));
    assert_eq!(actual_graph, AdjMatGraph::new());
}

#[test]
fn test_insert_vertex_normal() {
    let some_label: u64 = 33;

    let mut actual_graph: AdjMatGraph<u64, u64> = AdjMatGraph::new();

    let actual_res: Result<VertexNumber, EnceladusError> = actual_graph.insert_vertex(some_label);

    let expected_vertex_number: VertexNumber = 0;
    let expected_res: Result<VertexNumber, EnceladusError> = Ok(expected_vertex_number);

    assert_eq!(actual_res, expected_res);
    assert_eq!(actual_graph.order(), Ok(1));
    assert_eq!(actual_graph.size(), Ok(0));
    assert_eq!(actual_graph.adjacency_matrix(), &vec![vec![0]]);
    assert_eq!(actual_graph.get_vertex(0), Ok(Some(&some_label)));
    assert_eq!(actual_graph.get_vertex(1), Ok(None));
    assert_eq!(actual_graph.get_edge(0), Ok(None));
    assert_eq!(actual_graph.endpoints(0), Err(EnceladusError::EdgeNotFound));
}

#[test]
fn test_insert_two_vertices_normal() {
    let some_labels: Vec<u64> = vec![33, 12];

    let mut actual_graph: AdjMatGraph<u64, u64> = AdjMatGraph::new();

    actual_graph.insert_vertex(some_labels[0]).unwrap();

    let actual_res: Result<VertexNumber, EnceladusError> =
        actual_graph.insert_vertex(some_labels[1]);

    let expected_vertex_number: VertexNumber = 1;
    let expected_res: Result<VertexNumber, EnceladusError> = Ok(expected_vertex_number);

    assert_eq!(actual_res, expected_res);
    assert_eq!(actual_graph.order(), Ok(2));
    assert_eq!(actual_graph.size(), Ok(0));
    assert_eq!(actual_graph.adjacency_matrix(), &vec![vec![0, 0], vec![0, 0]]);
    assert_eq!(actual_graph.get_vertex(0), Ok(Some(&some_labels[0])));
    assert_eq!(actual_graph.get_vertex(1), Ok(Some(&some_labels[1])));
    assert_eq!(actual_graph.get_vertex(2), Ok(None));
    assert_eq!(actual_graph.get_edge(0), Ok(None));
    assert_eq!(actual_graph.endpoints(0), Err(EnceladusError::EdgeNotFound));
}

#[test]
fn test_remove_vertex_normal() {
    let some_label: u64 = 33;

    let mut actual_graph: AdjMatGraph<u64, u64> = AdjMatGraph::new();
    let some_vnum: VertexNumber = actual_graph.insert_vertex(some_label).unwrap();

    let actual_res: Result<(), EnceladusError> = actual_graph.remove_vertex(some_vnum);

    let expected_res: Result<(), EnceladusError> = Ok(());

    let expected_graph: AdjMatGraph<u64, u64> = AdjMatGraph::new();
    let expected_matrix: Vec<Vec<u64>> = vec![];

    assert_eq!(actual_res, expected_res);
    assert_eq!(actual_graph, expected_graph);
    assert_eq!(actual_graph.order(), Ok(0));
    assert_eq!(actual_graph.size(), Ok(0));
    assert_eq!(actual_graph.adjacency_matrix(), &expected_matrix);
    assert_eq!(actual_graph.get_vertex(0), Ok(None));
    assert_eq!(actual_graph.get_edge(0), Ok(None));
}

#[test]
fn test_insert_edge_normal() {
    let some_vlabels: Vec<u64> = vec![33, 12];
    let some_elabel: u64 = 3;

    let mut actual_graph: AdjMatGraph<u64, u64> = AdjMatGraph::new();
    let vertex_a: VertexNumber = actual_graph.insert_vertex(some_vlabels[0]).unwrap();
    let vertex_b: VertexNumber = actual_graph.insert_vertex(some_vlabels[1]).unwrap();

    let actual_res: Result<EdgeNumber, EnceladusError> =
        actual_graph.insert_edge(some_elabel, vertex_a, vertex_b);

    let actual_edge_number: EdgeNumber = actual_res.unwrap();

    let expected_edge_number: EdgeNumber = 0;
    let expected_res: Result<EdgeNumber, EnceladusError> = Ok(expected_edge_number);

    assert_eq!(actual_res, expected_res);
    assert_eq!(actual_graph.order(), Ok(2));
    assert_eq!(actual_graph.size(), Ok(1));
    assert_eq!(actual_graph.adjacency_matrix(), &vec![vec![0, 1], vec![1, 0]]);
    assert_eq!(actual_graph.endpoints(actual_edge_number), Ok((vertex_a, vertex_b)));
    assert_eq!(actual_graph.endpoints(1), Err(EnceladusError::EdgeNotFound));
    assert_eq!(actual_graph.get_vertex(0), Ok(Some(&some_vlabels[0])));
    assert_eq!(actual_graph.get_vertex(1), Ok(Some(&some_vlabels[1])));
    assert_eq!(actual_graph.get_edge(0), Ok(Some(&some_elabel)));
    assert_eq!(actual_graph.get_edge(1), Ok(None));
}

#[test]
fn test_remove_edge_normal() {
    let some_vlabels: Vec<u64> = vec![33, 12];
    let some_elabel: u64 = 3;

    let mut actual_graph: AdjMatGraph<u64, u64> = AdjMatGraph::new();
    let vertex_a: VertexNumber = actual_graph.insert_vertex(some_vlabels[0]).unwrap();
    let vertex_b: VertexNumber = actual_graph.insert_vertex(some_vlabels[1]).unwrap();

    let some_enum: EdgeNumber = actual_graph.insert_edge(some_elabel, vertex_a, vertex_b).unwrap();

    let actual_res: Result<(), EnceladusError> = actual_graph.remove_edge(some_enum);

    let expected_res: Result<(), EnceladusError> = Ok(());

    let mut expected_graph: AdjMatGraph<u64, u64> = AdjMatGraph::new();
    expected_graph.insert_vertex(some_vlabels[0]).unwrap();
    expected_graph.insert_vertex(some_vlabels[1]).unwrap();

    assert_eq!(actual_res, expected_res);
    assert_eq!(actual_graph, expected_graph);
    assert_eq!(actual_graph.order(), Ok(2));
    assert_eq!(actual_graph.size(), Ok(0));
    assert_eq!(actual_graph.adjacency_matrix(), &vec![vec![0, 0], vec![0, 0]]);
    assert_eq!(actual_graph.endpoints(0), Err(EnceladusError::EdgeNotFound));
    assert_eq!(actual_graph.get_vertex(0), Ok(Some(&some_vlabels[0])));
    assert_eq!(actual_graph.get_vertex(1), Ok(Some(&some_vlabels[1])));
    assert_eq!(actual_graph.get_edge(0), Ok(None));
}

#[test]
fn two_vertices_and_an_edge() {
    let mut graph: AdjMatGraph<u64, u64> = AdjMatGraph::new();
    graph.insert_vertex(33).unwrap();
    graph.insert_vertex(12).unwrap();
    assert_eq!(graph.insert_edge(3, 0, 1), Ok(0));
    assert_eq!(graph.order(), Ok(2));
    assert_eq!(graph.size(), Ok(1));
    assert_eq!(graph.adjacency_matrix(), &vec![vec![0, 1], vec![1, 0]]);
    assert_eq!(graph.degree(0), Ok(1));
    assert_eq!(graph.degree(1), Ok(1));
    assert_eq!(graph.remove_edge(0), Ok(()));
    assert_eq!(graph.adjacency_matrix(), &vec![vec![0, 0], vec![0, 0]]);
    assert_eq!(graph.size(), Ok(0));
}

#[test]
fn a_self_loop_adds_two_to_the_degree() {
    let mut graph: AdjMatGraph<u64, u64> = AdjMatGraph::new();
    graph.insert_vertex(1).unwrap();
    graph.insert_vertex(2).unwrap();
    graph.insert_edge(10, 0, 1).unwrap();
    assert_eq!(graph.degree(0), Ok(1));
    assert_eq!(graph.insert_edge(11, 0, 0), Ok(1));
    assert_eq!(graph.degree(0), Ok(3));
    assert_eq!(graph.degree(1), Ok(1));
    assert_eq!(graph.adjacency_matrix(), &vec![vec![2, 1], vec![1, 0]]);
    assert_eq!(graph.is_adjacent(0, 0), Ok(true));
    assert_eq!(graph.is_adjacent(1, 1), Ok(false));
    assert_eq!(graph.neighbours(0), Ok(vec![0, 1]));
    assert_eq!(graph.incident_edges(0), Ok(vec![0, 1]));
    assert_eq!(graph.incident_edges(1), Ok(vec![0]));
}

#[test]
fn several_edges_between_two_vertices() {
    let mut graph: AdjMatGraph<u64, u64> = AdjMatGraph::new();
    for label in 0..3 {
        graph.insert_vertex(label).unwrap();
    }
    assert_eq!(graph.insert_edge(7, 0, 2), Ok(0));
    assert_eq!(graph.insert_edge(8, 2, 0), Ok(1));
    assert_eq!(graph.insert_edge(9, 1, 2), Ok(2));
    assert_eq!(
        graph.adjacency_matrix(),
        &vec![vec![0, 0, 2], vec![0, 0, 1], vec![2, 1, 0]]
    );
    assert_eq!(graph.degree(2), Ok(3));
    assert_eq!(graph.endpoints(1), Ok((2, 0)));
    assert_eq!(graph.is_incident(0, 1), Ok(true));
    assert_eq!(graph.is_incident(1, 1), Ok(false));
    assert_eq!(graph.neighbours(2), Ok(vec![0, 1]));
    assert_eq!(graph.neighbours(1), Ok(vec![2]));
    assert_eq!(graph.is_adjacent(0, 1), Ok(false));
    assert_eq!(graph.is_adjacent(2, 1), Ok(true));
}

#[test]
fn the_matrix_stays_symmetric() {
    let mut graph: AdjMatGraph<u64, u64> = AdjMatGraph::new();
    for label in 0..5 {
        graph.insert_vertex(label).unwrap();
    }
    let links = [(0, 1), (1, 0), (2, 2), (3, 4), (4, 0), (1, 3), (3, 3)];
    for (label, (a, b)) in links.iter().enumerate() {
        graph.insert_edge(label as u64, *a, *b).unwrap();
    }
    graph.remove_edge(2).unwrap();
    graph.remove_vertex(1).unwrap();
    let matrix = graph.adjacency_matrix();
    assert_eq!(matrix.len(), 4);
    for a in 0..4 {
        assert_eq!(matrix[a].len(), 4);
        for b in 0..4 {
            assert_eq!(matrix[a][b], matrix[b][a]);
        }
    }
}

#[test]
fn absent_vertices_and_edges_are_reported() {
    let mut graph: AdjMatGraph<u64, u64> = AdjMatGraph::new();
    graph.insert_vertex(1).unwrap();
    assert_eq!(graph.insert_edge(5, 0, 1), Err(EnceladusError::VertexNotFound));
    assert_eq!(graph.insert_edge(5, 1, 0), Err(EnceladusError::VertexNotFound));
    assert_eq!(graph.size(), Ok(0));
    assert_eq!(graph.remove_vertex(1), Err(EnceladusError::VertexNotFound));
    assert_eq!(graph.remove_edge(0), Err(EnceladusError::EdgeNotFound));
    assert_eq!(graph.degree(1), Err(EnceladusError::VertexNotFound));
    assert_eq!(graph.is_adjacent(0, 1), Err(EnceladusError::VertexNotFound));
    assert_eq!(graph.is_incident(1, 0), Err(EnceladusError::VertexNotFound));
    assert_eq!(graph.is_incident(0, 0), Err(EnceladusError::EdgeNotFound));
    assert_eq!(graph.neighbours(1), Err(EnceladusError::VertexNotFound));
    assert_eq!(graph.incident_edges(1), Err(EnceladusError::VertexNotFound));
    assert_eq!(graph.endpoints(0), Err(EnceladusError::EdgeNotFound));
    assert_eq!(graph.set_vertex(1, 9), Err(EnceladusError::KeyNotFound));
    assert_eq!(graph.set_edge(0, 9), Err(EnceladusError::KeyNotFound));
    assert_eq!(graph.order(), Ok(1));
}

#[test]
fn removing_a_vertex_removes_its_edges_and_renumbers_the_rest() {
    let mut graph: AdjMatGraph<u64, u64> = AdjMatGraph::new();
    for label in [100, 101, 102, 103] {
        graph.insert_vertex(label).unwrap();
    }
    graph.insert_edge(10, 0, 1).unwrap();
    graph.insert_edge(11, 1, 2).unwrap();
    graph.insert_edge(12, 2, 3).unwrap();
    graph.insert_edge(13, 1, 1).unwrap();
    graph.insert_edge(14, 3, 0).unwrap();

    assert_eq!(graph.remove_vertex(1), Ok(()));

    assert_eq!(graph.order(), Ok(3));
    assert_eq!(graph.size(), Ok(2));
    assert_eq!(graph.get_vertex(0), Ok(Some(&100)));
    assert_eq!(graph.get_vertex(1), Ok(Some(&102)));
    assert_eq!(graph.get_vertex(2), Ok(Some(&103)));
    assert_eq!(graph.get_vertex(3), Ok(None));
    assert_eq!(graph.get_edge(0), Ok(Some(&12)));
    assert_eq!(graph.get_edge(1), Ok(Some(&14)));
    assert_eq!(graph.get_edge(2), Ok(None));
    assert_eq!(graph.endpoints(0), Ok((1, 2)));
    assert_eq!(graph.endpoints(1), Ok((2, 0)));
    assert_eq!(
        graph.adjacency_matrix(),
        &vec![vec![0, 0, 1], vec![0, 0, 1], vec![1, 1, 0]]
    );
    assert_eq!(graph.incident_edges(1), Ok(vec![0]));
    assert_eq!(graph.incident_edges(3), Err(EnceladusError::VertexNotFound));
    for edge in 0..2 {
        let (a, b) = graph.endpoints(edge).unwrap();
        assert!(a < 3 && b < 3);
    }
}

#[test]
fn removing_the_last_vertex_makes_its_number_unknown() {
    let mut graph: AdjMatGraph<u64, u64> = AdjMatGraph::new();
    graph.insert_vertex(1).unwrap();
    graph.insert_vertex(2).unwrap();
    graph.insert_edge(5, 0, 1).unwrap();
    graph.insert_edge(6, 1, 1).unwrap();
    assert_eq!(graph.remove_vertex(1), Ok(()));
    assert_eq!(graph.incident_edges(1), Err(EnceladusError::VertexNotFound));
    assert_eq!(graph.incident_edges(0), Ok(vec![]));
    assert_eq!(graph.size(), Ok(0));
    assert_eq!(graph.adjacency_matrix(), &vec![vec![0]]);
}

#[test]
fn removing_the_only_vertex_removes_its_loops() {
    let mut graph: AdjMatGraph<u64, u64> = AdjMatGraph::new();
    graph.insert_vertex(1).unwrap();
    graph.insert_edge(5, 0, 0).unwrap();
    graph.insert_edge(6, 0, 0).unwrap();
    assert_eq!(graph.degree(0), Ok(4));
    assert_eq!(graph.remove_vertex(0), Ok(()));
    assert_eq!(graph.order(), Ok(0));
    assert_eq!(graph.size(), Ok(0));
    assert_eq!(graph, AdjMatGraph::new());
}

#[test]
fn removing_an_edge_renumbers_the_edges_behind_it() {
    let mut graph: AdjMatGraph<u64, u64> = AdjMatGraph::new();
    graph.insert_vertex(1).unwrap();
    graph.insert_vertex(2).unwrap();
    graph.insert_edge(20, 0, 1).unwrap();
    graph.insert_edge(21, 1, 1).unwrap();
    graph.insert_edge(22, 1, 0).unwrap();
    assert_eq!(graph.remove_edge(0), Ok(()));
    assert_eq!(graph.size(), Ok(2));
    assert_eq!(graph.get_edge(0), Ok(Some(&21)));
    assert_eq!(graph.get_edge(1), Ok(Some(&22)));
    assert_eq!(graph.endpoints(0), Ok((1, 1)));
    assert_eq!(graph.endpoints(1), Ok((1, 0)));
    assert_eq!(graph.insert_edge(23, 0, 0), Ok(2));
    assert_eq!(graph.incident_edges(0), Ok(vec![1, 2]));
    assert_eq!(graph.adjacency_matrix(), &vec![vec![2, 1], vec![1, 2]]);
}

#[test]
fn labels_can_be_read_and_written() {
    let mut graph: AdjMatGraph<u64, u64> = AdjMatGraph::new();
    graph.insert_vertex(1).unwrap();
    graph.insert_edge(5, 0, 0).unwrap();
    assert_eq!(graph.set_vertex(0, 7), Ok(()));
    assert_eq!(graph.get_vertex(0), Ok(Some(&7)));
    assert_eq!(graph.set_edge(0, 8), Ok(()));
    assert_eq!(graph.get_edge(0), Ok(Some(&8)));
    match graph.get_mut_vertex(0) {
        Ok(Some(label)) => *label = 9,
        _ => panic!("vertex 0 exists"),
    }
    match graph.get_mut_edge(0) {
        Ok(Some(label)) => *label = 10,
        _ => panic!("edge 0 exists"),
    }
    assert_eq!(graph.get_vertex(0), Ok(Some(&9)));
    assert_eq!(graph.get_edge(0), Ok(Some(&10)));
    assert_eq!(graph.get_mut_vertex(1).map(|found| found.is_none()), Ok(true));
}

#[test]
fn clear_empties_the_graph_and_leaves_it_usable() {
    let mut graph: AdjMatGraph<u64, u64> = AdjMatGraph::new();
    graph.insert_vertex(1).unwrap();
    graph.insert_vertex(2).unwrap();
    graph.insert_edge(5, 0, 1).unwrap();
    assert_eq!(graph.clear(), Ok(()));
    assert_eq!(graph.order(), Ok(0));
    assert_eq!(graph.size(), Ok(0));
    assert_eq!(graph, AdjMatGraph::new());
    assert_eq!(graph.insert_vertex(3), Ok(0));
    assert_eq!(graph.get_vertex(0), Ok(Some(&3)));
}

#[test]
fn graphs_with_different_matrices_differ() {
    let mut left: AdjMatGraph<u64, u64> = AdjMatGraph::new();
    let mut right: AdjMatGraph<u64, u64> = AdjMatGraph::new();
    for graph in [&mut left, &mut right] {
        graph.insert_vertex(1).unwrap();
        graph.insert_vertex(2).unwrap();
    }
    left.insert_edge(5, 0, 1).unwrap();
    right.insert_edge(5, 0, 0).unwrap();
    assert_ne!(left, right);
}
