use graph_stats::combinatorics::{binomial, binomial_of, min};
use graph_stats::counting::{
    num_4_cliques, num_k_stars, num_near_4_cliques, num_triangles, num_triangles_1,
};
use graph_stats::graph::{add_edge, add_vertex, delete_edge, Graph};
use graph_stats::release::{
    capped_star_sensitivity, capped_stars_at, k_star_sensitivity, num_k_stars_bounded,
    ReleaseError,
};
use graph_stats::sums::accumulate;

fn from_edges(edges: &[(i32, i32)]) -> Graph {
    let mut g = Graph::new();
    for e in edges {
        add_edge(&mut g, *e);
    }
    g
}

fn complete(n: i32) -> Graph {
    let mut g = Graph::new();
    for i in 0..n {
        add_vertex(&mut g, i);
    }
    for i in 0..n {
        for j in (i + 1)..n {
            add_edge(&mut g, (i, j));
        }
    }
    g
}

fn star(leaves: i32) -> Graph {
    let mut g = Graph::new();
    for i in 1..=leaves {
        add_edge(&mut g, (0, i));
    }
    g
}

#[test]
fn binomial_small_values() {
    assert_eq!(binomial(5, 2), Some(10));
    assert_eq!(binomial(5, 0), Some(1));
    assert_eq!(binomial(5, 5), Some(1));
    assert_eq!(binomial(0, 0), Some(1));
    assert_eq!(binomial(10, 3), Some(120));
    assert_eq!(binomial(52, 5), Some(2598960));
}

#[test]
fn binomial_outside_the_triangle_is_zero() {
    assert_eq!(binomial(3, 5), Some(0));
    assert_eq!(binomial(3, -1), Some(0));
    assert_eq!(binomial(-1, 0), Some(0));
    assert_eq!(binomial(-4, 2), Some(0));
    assert_eq!(binomial(0, 1), Some(0));
}

#[test]
fn binomial_at_the_edge_of_64_bits() {
    assert_eq!(binomial(64, 32), Some(1832624140942590534));
    assert_eq!(binomial(67, 33), Some(14226520737620288370));
    assert_eq!(binomial(68, 34), None);
    assert_eq!(binomial_of(68, 1), Some(68));
    assert_eq!(binomial_of(68, 67), Some(68));
}

#[test]
fn min_picks_the_smaller() {
    assert_eq!(min(2, 3), 2);
    assert_eq!(min(3, 2), 2);
    assert_eq!(min(-1, -1), -1);
}

#[test]
fn accumulate_adds_or_gives_up() {
    assert_eq!(accumulate(2, Some(3)), Some(5));
    assert_eq!(accumulate(2, None), None);
    assert_eq!(accumulate(u64::MAX, Some(1)), None);
    assert_eq!(accumulate(u64::MAX, Some(0)), Some(u64::MAX));
}

#[test]
fn triangle_with_a_tail_has_one_triangle() {
    let g = from_edges(&[(0, 1), (1, 2), (0, 2), (2, 3)]);
    assert_eq!(num_triangles(&g), Some(1));
    assert_eq!(num_triangles_1(&g), Some(6));
}

#[test]
fn four_cycle_with_a_diagonal() {
    let g = from_edges(&[(0, 1), (1, 2), (2, 3), (3, 0), (0, 2)]);
    assert_eq!(num_triangles(&g), Some(2));
    assert_eq!(num_triangles_1(&g), Some(12));
    assert_eq!(num_4_cliques(&g), Some(0));
    assert_eq!(num_near_4_cliques(&g), Some(1));
}

#[test]
fn common_neighbour_count_is_six_times_the_triangles() {
    let graphs = vec![
        Graph::new(),
        from_edges(&[(0, 1), (1, 2), (2, 3)]),
        from_edges(&[(0, 1), (1, 2), (2, 0)]),
        from_edges(&[(5, 1), (1, 9), (9, 5), (9, 2), (2, 1), (7, 7 + 1)]),
        complete(4),
        complete(5),
        complete(6),
    ];
    let expected: Vec<u64> = vec![0, 0, 1, 2, 4, 10, 20];
    for (g, t) in graphs.iter().zip(expected) {
        assert_eq!(num_triangles(g), Some(t));
        assert_eq!(num_triangles_1(g), Some(6 * t));
    }
}

#[test]
fn triangles_do_not_depend_on_insertion_order() {
    let a = from_edges(&[(0, 1), (1, 2), (0, 2), (2, 3), (3, 0)]);
    let b = from_edges(&[(3, 2), (2, 0), (3, 0), (1, 0), (2, 1)]);
    assert_eq!(num_triangles(&a), num_triangles(&b));
    assert_eq!(num_triangles_1(&a), num_triangles_1(&b));
    assert_eq!(num_near_4_cliques(&a), num_near_4_cliques(&b));
}

#[test]
fn four_cliques_of_complete_graphs() {
    assert_eq!(num_4_cliques(&complete(3)), Some(0));
    assert_eq!(num_4_cliques(&complete(4)), Some(1));
    assert_eq!(num_4_cliques(&complete(5)), Some(5));
    assert_eq!(num_4_cliques(&complete(6)), Some(15));
}

#[test]
fn four_cliques_with_shuffled_labels() {
    let g = from_edges(&[(9, 2), (2, 7), (7, 4), (4, 9), (9, 7), (2, 4), (4, 11)]);
    assert_eq!(num_4_cliques(&g), Some(1));
    let mut h = complete(5);
    delete_edge(&mut h, (1, 3));
    assert_eq!(num_4_cliques(&h), Some(2));
}

#[test]
fn near_four_cliques() {
    assert_eq!(num_near_4_cliques(&complete(4)), Some(0));
    let mut g = complete(4);
    delete_edge(&mut g, (1, 2));
    assert_eq!(num_near_4_cliques(&g), Some(1));
    let mut h = complete(5);
    delete_edge(&mut h, (0, 4));
    assert_eq!(num_near_4_cliques(&h), Some(3));
    assert_eq!(num_near_4_cliques(&from_edges(&[(0, 1), (1, 2), (2, 3), (3, 0)])), Some(0));
}

#[test]
fn k_star_boundary_degrees() {
    // the centre has degree 3, every leaf degree 1
    let g = star(3);
    assert_eq!(num_k_stars(&g, 4), Some(0));
    assert_eq!(num_k_stars(&g, 3), Some(1));
    assert_eq!(num_k_stars(&g, 2), Some(3));
    assert_eq!(num_k_stars(&g, 1), Some(6));
}

#[test]
fn k_stars_of_a_complete_graph() {
    assert_eq!(num_k_stars(&complete(5), 3), Some(5 * 4));
    assert_eq!(num_k_stars(&complete(5), 0), Some(5));
    assert_eq!(num_k_stars(&complete(5), -1), Some(0));
    assert_eq!(num_k_stars(&Graph::new(), 2), Some(0));
}

#[test]
fn global_sensitivity_of_the_star_count() {
    assert_eq!(k_star_sensitivity(&complete(5), 3), Some(6));
    assert_eq!(k_star_sensitivity(&complete(5), 1), Some(1));
    assert_eq!(k_star_sensitivity(&complete(5), 0), Some(0));
    assert_eq!(k_star_sensitivity(&Graph::new(), 2), Some(0));
    assert_eq!(k_star_sensitivity(&star(9), 2), Some(9));
}

#[test]
fn capped_count_is_biased_downwards_on_a_star() {
    let g = star(5);
    assert_eq!(num_k_stars(&g, 2), Some(10));
    assert_eq!(num_k_stars_bounded(&g, 2, 3), Ok(3));
    assert_eq!(num_k_stars_bounded(&g, 2, 4), Ok(6));
    assert_eq!(num_k_stars_bounded(&g, 2, 5), Ok(10));
    assert_eq!(num_k_stars_bounded(&g, 2, 50), Ok(10));
    assert_eq!(num_k_stars_bounded(&g, 2, 0), Ok(0));
    assert_eq!(capped_stars_at(&g, 0, 2, 3), Some(3));
    assert_eq!(capped_stars_at(&g, 1, 1, 3), Some(1));
    assert_eq!(capped_stars_at(&g, 77, 1, 3), Some(0));
}

#[test]
fn negative_degree_cap_is_refused() {
    let g = star(5);
    assert_eq!(num_k_stars_bounded(&g, 2, -1), Err(ReleaseError::NegativeDegreeCap));
    assert_eq!(capped_star_sensitivity(-1, 2), Err(ReleaseError::NegativeDegreeCap));
    assert_eq!(
        ReleaseError::NegativeDegreeCap.message(),
        "the degree cap must not be negative"
    );
}

#[test]
fn count_too_large_is_reported() {
    assert_eq!(capped_star_sensitivity(68, 35), Err(ReleaseError::CountTooLarge));
    assert_eq!(ReleaseError::CountTooLarge.message(), "the count does not fit in 64 bits");
}

#[test]
fn capped_sensitivity_values() {
    assert_eq!(capped_star_sensitivity(3, 2), Ok(3));
    assert_eq!(capped_star_sensitivity(10, 3), Ok(45));
    assert_eq!(capped_star_sensitivity(10, 1), Ok(1));
    assert_eq!(capped_star_sensitivity(10, 0), Ok(0));
    assert_eq!(capped_star_sensitivity(0, 1), Ok(1));
}
