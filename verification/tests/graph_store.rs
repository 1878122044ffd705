use graph_stats::graph::{add_edge, add_vertex, delete_edge, edge_exists, get_neighbors, Graph};

fn sorted(mut v: Vec<i32>) -> Vec<i32> {
    v.sort();
    v
}

fn vertex_list(g: &Graph) -> Vec<i32> {
    let mut out = Vec::new();
    for i in 0..g.vertex_count() {
        out.push(g.vertex_at(i));
    }
    out
}

fn adjacency(g: &Graph) -> Vec<(i32, Vec<i32>)> {
    let mut out = Vec::new();
    for v in vertex_list(g) {
        out.push((v, g.try_neighbors(v).unwrap().clone()));
    }
    out
}

fn symmetric(g: &Graph) -> bool {
    let vs = vertex_list(g);
    for &u in &vs {
        for &v in &vs {
            if edge_exists(g, u, v) != edge_exists(g, v, u) {
                return false;
            }
        }
    }
    true
}

#[test]
fn new_graph_is_empty() {
    let g = Graph::new();
    assert_eq!(g.vertex_count(), 0);
    assert!(g.try_neighbors(0).is_none());
    assert_eq!(g.degree(0), 0);
}

#[test]
fn add_vertex_inserts_once() {
    let mut g = Graph::new();
    add_vertex(&mut g, 7);
    add_vertex(&mut g, 7);
    add_vertex(&mut g, 3);
    assert_eq!(vertex_list(&g), vec![7, 3]);
    assert_eq!(g.try_neighbors(7).unwrap().len(), 0);
}

#[test]
fn add_edge_creates_both_ends_and_both_arcs() {
    let mut g = Graph::new();
    add_edge(&mut g, (1, 2));
    assert_eq!(vertex_list(&g), vec![1, 2]);
    assert!(edge_exists(&g, 1, 2));
    assert!(edge_exists(&g, 2, 1));
    assert_eq!(g.degree(1), 1);
    assert_eq!(g.degree(2), 1);
}

#[test]
fn add_edge_twice_is_add_edge_once() {
    let mut once = Graph::new();
    add_edge(&mut once, (0, 1));
    add_edge(&mut once, (1, 2));
    let mut twice = Graph::new();
    add_edge(&mut twice, (0, 1));
    add_edge(&mut twice, (1, 2));
    add_edge(&mut twice, (1, 2));
    add_edge(&mut twice, (2, 1));
    assert_eq!(adjacency(&once), adjacency(&twice));
}

#[test]
fn delete_edge_twice_is_delete_edge_once() {
    let mut once = Graph::new();
    add_edge(&mut once, (0, 1));
    add_edge(&mut once, (1, 2));
    delete_edge(&mut once, (0, 1));
    let mut twice = Graph::new();
    add_edge(&mut twice, (0, 1));
    add_edge(&mut twice, (1, 2));
    delete_edge(&mut twice, (0, 1));
    delete_edge(&mut twice, (0, 1));
    assert_eq!(adjacency(&once), adjacency(&twice));
    assert!(!edge_exists(&once, 0, 1));
    assert!(!edge_exists(&once, 1, 0));
    assert!(edge_exists(&once, 1, 2));
}

#[test]
fn delete_edge_creates_missing_vertices() {
    let mut g = Graph::new();
    delete_edge(&mut g, (4, 9));
    assert_eq!(vertex_list(&g), vec![4, 9]);
    assert_eq!(g.degree(4), 0);
    assert_eq!(g.degree(9), 0);
}

#[test]
fn delete_edge_keeps_the_other_neighbours_in_order() {
    let mut g = Graph::new();
    add_edge(&mut g, (0, 1));
    add_edge(&mut g, (0, 2));
    add_edge(&mut g, (0, 3));
    delete_edge(&mut g, (0, 2));
    assert_eq!(g.try_neighbors(0).unwrap().clone(), vec![1, 3]);
    assert_eq!(g.try_neighbors(2).unwrap().len(), 0);
}

#[test]
fn adjacency_stays_symmetric() {
    let mut g = Graph::new();
    let edges = [(0, 1), (1, 2), (2, 3), (0, 2), (1, 3), (0, 3), (4, 0), (4, 1), (4, 2)];
    for e in edges {
        add_edge(&mut g, e);
        assert!(symmetric(&g));
    }
    for e in [(0, 2), (3, 1), (7, 8), (4, 0)] {
        delete_edge(&mut g, e);
        assert!(symmetric(&g));
    }
    assert!(!edge_exists(&g, 0, 2));
    assert!(!edge_exists(&g, 1, 3));
    assert!(edge_exists(&g, 2, 4));
}

#[test]
fn get_neighbors_creates_the_vertex() {
    let mut g = Graph::new();
    add_edge(&mut g, (0, 1));
    add_edge(&mut g, (0, 2));
    assert_eq!(sorted(get_neighbors(&mut g, 0)), vec![1, 2]);
    assert_eq!(g.vertex_count(), 3);
    assert_eq!(get_neighbors(&mut g, 5), Vec::<i32>::new());
    assert_eq!(vertex_list(&g), vec![0, 1, 2, 5]);
}

#[test]
fn edge_exists_is_false_for_an_unknown_vertex() {
    let mut g = Graph::new();
    add_edge(&mut g, (0, 1));
    assert!(!edge_exists(&g, 9, 0));
    assert!(!edge_exists(&g, 0, 9));
    assert_eq!(g.vertex_count(), 2);
}

#[test]
fn self_loop_is_one_symmetric_entry() {
    let mut g = Graph::new();
    add_edge(&mut g, (3, 3));
    assert_eq!(vertex_list(&g), vec![3]);
    assert_eq!(g.try_neighbors(3).unwrap().clone(), vec![3]);
    delete_edge(&mut g, (3, 3));
    assert_eq!(g.degree(3), 0);
}
