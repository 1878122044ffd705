use graph_stats::counting::{num_4_cliques_err, num_k_stars, num_triangles};
use graph_stats::graph::{add_edge, add_vertex, edge_exists, Graph};
use graph_stats::lattice::make_regular;
use graph_stats::rewiring::{apply_rewiring, draw_target, place_target, rewire, rewire_vertex};

fn with_vertices(n: i32) -> Graph {
    let mut g = Graph::new();
    for i in 0..n {
        add_vertex(&mut g, i);
    }
    g
}

fn rows(g: &Graph) -> Vec<(i32, Vec<i32>)> {
    let mut out = Vec::new();
    for i in 0..g.vertex_count() {
        let v = g.vertex_at(i);
        out.push((v, g.try_neighbors(v).unwrap().clone()));
    }
    out
}

fn arcs(g: &Graph) -> usize {
    rows(g).iter().map(|(_, r)| r.len()).sum()
}

fn symmetric(g: &Graph) -> bool {
    rows(g).iter().all(|(v, r)| r.iter().all(|w| edge_exists(g, *w, *v)))
}

#[test]
fn ring_of_five_with_one_step_is_a_cycle() {
    let mut g = with_vertices(5);
    make_regular(&mut g, 1);
    assert_eq!(
        rows(&g),
        vec![
            (0, vec![1, 4]),
            (1, vec![0, 2]),
            (2, vec![1, 3]),
            (3, vec![2, 4]),
            (4, vec![3, 0]),
        ]
    );
}

#[test]
fn ring_of_six_with_two_steps() {
    let mut g = with_vertices(6);
    make_regular(&mut g, 2);
    for i in 0..6 {
        assert_eq!(g.degree(i), 4);
        assert!(edge_exists(&g, i, (i + 1) % 6));
        assert!(edge_exists(&g, i, (i + 2) % 6));
        assert!(!edge_exists(&g, i, (i + 3) % 6));
    }
    assert_eq!(num_triangles(&g), Some(8));
    assert_eq!(num_k_stars(&g, 4), Some(6));
}

#[test]
fn ring_with_no_steps_or_no_vertices_changes_nothing() {
    let mut g = with_vertices(4);
    make_regular(&mut g, 0);
    assert_eq!(arcs(&g), 0);
    make_regular(&mut g, -3);
    assert_eq!(arcs(&g), 0);
    let mut e = Graph::new();
    make_regular(&mut e, 3);
    assert_eq!(e.vertex_count(), 0);
}

#[test]
fn ring_step_equal_to_the_size_gives_loops() {
    let mut g = with_vertices(2);
    make_regular(&mut g, 2);
    assert_eq!(rows(&g), vec![(0, vec![1, 0]), (1, vec![0, 1])]);
}

#[test]
fn loose_clique_count_on_a_complete_graph() {
    let mut g = with_vertices(4);
    make_regular(&mut g, 3);
    assert_eq!(num_4_cliques_err(&g), Some(1));
    let mut p = Graph::new();
    for e in [(0, 1), (1, 2), (1, 3), (0, 3)] {
        add_edge(&mut p, e);
    }
    assert_eq!(num_4_cliques_err(&p), Some(1));
}

#[test]
fn place_target_skips_the_two_barred_numbers() {
    assert_eq!(place_target(0, 5, 1, 2), 0);
    assert_eq!(place_target(1, 5, 1, 2), 3);
    assert_eq!(place_target(2, 5, 1, 2), 4);
    assert_eq!(place_target(0, 5, 3, 0), 1);
    assert_eq!(place_target(1, 5, 3, 0), 2);
    assert_eq!(place_target(2, 5, 3, 0), 4);
    assert_eq!(place_target(3, 5, 2, 2), 4);
    assert_eq!(place_target(1, 5, 2, 2), 1);
    assert_eq!(place_target(4, 5, 7, -1), 4);
    assert_eq!(place_target(3, 5, 0, 9), 4);
}

#[test]
fn draw_target_stays_in_range_and_off_the_barred() {
    for _ in 0..200 {
        let t = draw_target(3, 0, 1);
        assert_eq!(t, Some(2));
        let u = draw_target(6, 4, 2).unwrap();
        assert!(0 <= u && u < 6 && u != 4 && u != 2);
    }
    let mut seen = [false; 6];
    for _ in 0..2000 {
        seen[draw_target(6, 4, 2).unwrap() as usize] = true;
    }
    assert_eq!(seen, [true, true, false, true, false, true]);
}

#[test]
fn draw_target_without_a_choice_is_none() {
    assert_eq!(draw_target(2, 0, 1), None);
    assert_eq!(draw_target(1, 0, 0), None);
    assert_eq!(draw_target(0, 0, 1), None);
    assert_eq!(draw_target(-4, 0, 1), None);
    assert_eq!(draw_target(1, 5, 6), Some(0));
}

#[test]
fn apply_rewiring_moves_the_named_edges() {
    let mut g = with_vertices(6);
    make_regular(&mut g, 1);
    apply_rewiring(&mut g, 0, &vec![1], &vec![3]);
    assert_eq!(g.try_neighbors(0).unwrap().clone(), vec![5, 3]);
    assert_eq!(g.try_neighbors(1).unwrap().clone(), vec![2]);
    assert_eq!(g.try_neighbors(3).unwrap().clone(), vec![2, 4, 0]);
    assert!(symmetric(&g));
}

#[test]
fn rewiring_with_no_chance_changes_nothing() {
    let mut g = with_vertices(8);
    make_regular(&mut g, 2);
    let before = rows(&g);
    rewire(&mut g, 0, 7);
    assert_eq!(rows(&g), before);
}

#[test]
fn rewiring_with_certainty_moves_every_edge_of_the_vertex() {
    let mut g = Graph::new();
    for e in [(0, 1), (0, 2)] {
        add_edge(&mut g, e);
    }
    // the only numbers of 0..3 other than 0 and the old end are 2 and 1
    rewire_vertex(&mut g, 0, 3, 5, 5);
    assert_eq!(g.try_neighbors(0).unwrap().clone(), vec![2, 1]);
    assert!(symmetric(&g));
}

#[test]
fn rewiring_keeps_the_graph_symmetric_and_its_vertices() {
    let mut g = with_vertices(30);
    make_regular(&mut g, 3);
    let arcs_before = arcs(&g);
    rewire(&mut g, 1, 4);
    assert_eq!(g.vertex_count(), 30);
    assert!(symmetric(&g));
    assert!(arcs(&g) <= arcs_before);
    for i in 0..30 {
        assert!(!edge_exists(&g, i, i));
    }
}
