use graph_stats::distances::distances_from;
use graph_stats::graph::{add_edge, add_vertex, Graph};
use graph_stats::lattice::make_regular;

fn from_edges(edges: &[(i32, i32)]) -> Graph {
    let mut g = Graph::new();
    for e in edges {
        add_edge(&mut g, *e);
    }
    g
}

#[test]
fn distances_along_a_path() {
    let g = from_edges(&[(0, 1), (1, 2), (2, 3)]);
    assert_eq!(distances_from(&g, 0), vec![Some(0), Some(1), Some(2), Some(3)]);
    assert_eq!(distances_from(&g, 2), vec![Some(2), Some(1), Some(0), Some(1)]);
}

#[test]
fn distances_follow_the_vertex_list_not_the_labels() {
    let g = from_edges(&[(10, 30), (30, 20), (20, 40), (10, 40)]);
    // vertex list: 10, 30, 20, 40
    assert_eq!(distances_from(&g, 10), vec![Some(0), Some(1), Some(2), Some(1)]);
    assert_eq!(g.position_of(20), Some(2));
    assert_eq!(g.position_of(99), None);
}

#[test]
fn unreachable_vertices_have_no_distance() {
    let mut g = from_edges(&[(0, 1), (2, 3)]);
    add_vertex(&mut g, 4);
    assert_eq!(distances_from(&g, 0), vec![Some(0), Some(1), None, None, None]);
    assert_eq!(distances_from(&g, 4), vec![None, None, None, None, Some(0)]);
}

#[test]
fn unknown_source_reaches_nothing() {
    let g = from_edges(&[(0, 1), (1, 2)]);
    assert_eq!(distances_from(&g, 7), vec![None, None, None]);
    assert_eq!(distances_from(&Graph::new(), 0), Vec::<Option<u64>>::new());
}

#[test]
fn distances_on_a_ring_take_the_short_way_round() {
    let mut g = Graph::new();
    for i in 0..8 {
        add_vertex(&mut g, i);
    }
    make_regular(&mut g, 1);
    assert_eq!(
        distances_from(&g, 0),
        vec![Some(0), Some(1), Some(2), Some(3), Some(4), Some(3), Some(2), Some(1)]
    );
}

#[test]
fn a_loop_does_not_change_distances() {
    let g = from_edges(&[(0, 0), (0, 1), (1, 1), (1, 2)]);
    assert_eq!(distances_from(&g, 0), vec![Some(0), Some(1), Some(2)]);
}
