//! How the two triangle counts are related: in a graph without loops the
//! count by common neighbours is six times the number of triangles.

use vstd::prelude::*;
use crate::counting::{
    shared_first,
    shared_neighbor_count,
    shared_second,
    shared_third,
    triangle_count,
    triangle_first,
    triangle_second,
    triangle_third,
};
use crate::graph::{Graph, Vertex};
use crate::sums::{
    inner3,
    lemma_sum3_add,
    lemma_sum3_eq,
    lemma_sum3_swap12,
    lemma_sum3_swap23,
    lemma_sum_eq,
    lemma_sum_restrict,
    lemma_sum_zero,
    mid3,
    outer3,
    sum3,
};

verus! {

// The two triangle counts as sums over triples

/// `p` with its last two arguments in the other order.
pub open spec fn swapped23(p: spec_fn(Vertex, Vertex, Vertex) -> nat) -> spec_fn(
    Vertex,
    Vertex,
    Vertex,
) -> nat {
    |i: Vertex, j: Vertex, k: Vertex| p(i, k, j)
}

/// `p` with its first two arguments in the other order.
pub open spec fn swapped12(p: spec_fn(Vertex, Vertex, Vertex) -> nat) -> spec_fn(
    Vertex,
    Vertex,
    Vertex,
) -> nat {
    |i: Vertex, j: Vertex, k: Vertex| p(j, i, k)
}

/// The sum of two terms.
pub open spec fn plus(
    p: spec_fn(Vertex, Vertex, Vertex) -> nat,
    q: spec_fn(Vertex, Vertex, Vertex) -> nat,
) -> spec_fn(Vertex, Vertex, Vertex) -> nat {
    |i: Vertex, j: Vertex, k: Vertex| p(i, j, k) + q(i, j, k)
}

/// 1 for three vertices that are joined pairwise, else 0.
pub open spec fn cornered(g: Graph) -> spec_fn(Vertex, Vertex, Vertex) -> nat {
    |i: Vertex, j: Vertex, k: Vertex|
        if g.has_edge(i, j) && g.has_edge(i, k) && g.has_edge(j, k) {
            1nat
        } else {
            0nat
        }
}

/// 1 for three vertices `i < j < k` that are joined pairwise, else 0.
pub open spec fn ascending(g: Graph) -> spec_fn(Vertex, Vertex, Vertex) -> nat {
    |i: Vertex, j: Vertex, k: Vertex|
        if i < j && j < k && g.has_edge(i, j) && g.has_edge(i, k) && g.has_edge(j, k) {
            1nat
        } else {
            0nat
        }
}

/// The triangle count is the number of triples of vertices `i < j < k`
/// that are joined pairwise.
pub proof fn lemma_triangles_as_triples(g: Graph)
    ensures
        triangle_count(g) == sum3(g.vertices(), ascending(g)),
{
    let s = g.vertices();
    let o = ascending(g);
    assert forall|i: Vertex| s.contains(i) implies #[trigger] triangle_first(g)(i) == outer3(s, o)(
        i,
    ) by {
        assert forall|j: Vertex| s.contains(j) implies #[trigger] triangle_second(g, i)(j) == mid3(
            s,
            o,
            i,
        )(j) by {
            if i < j && g.has_edge(i, j) {
                assert forall|k: Vertex| s.contains(k) implies #[trigger] triangle_third(g, i, j)(k)
                    == inner3(o, i, j)(k) by {}
                lemma_sum_eq(s, triangle_third(g, i, j), inner3(o, i, j));
            } else {
                assert forall|k: Vertex| s.contains(k) implies #[trigger] inner3(o, i, j)(k)
                    == 0 by {}
                lemma_sum_zero(s, inner3(o, i, j));
            }
        }
        lemma_sum_eq(s, triangle_second(g, i), mid3(s, o, i));
    }
    lemma_sum_eq(s, triangle_first(g), outer3(s, o));
}

/// The count by common neighbours is the number of triples of vertices,
/// in any order, that are joined pairwise.
pub proof fn lemma_shared_as_triples(g: Graph)
    requires
        g.wf(),
    ensures
        shared_neighbor_count(g) == sum3(g.vertices(), cornered(g)),
{
    let s = g.vertices();
    let c = cornered(g);
    assert forall|i: Vertex| s.contains(i) implies #[trigger] shared_first(g)(i) == outer3(s, c)(
        i,
    ) by {
        let ni = g.neighbors(i);
        assert forall|j: Vertex| s.contains(j) implies #[trigger] mid3(s, c, i)(j) == (if ni.contains(
            j,
        ) {
            shared_second(g, i)(j)
        } else {
            0
        }) by {
            if ni.contains(j) {
                assert forall|x: Vertex| s.contains(x) implies #[trigger] inner3(c, i, j)(x) == (if ni.contains(
                    x,
                ) {
                    shared_third(g, j)(x)
                } else {
                    0
                }) by {}
                lemma_sum_restrict(ni, s, shared_third(g, j), inner3(c, i, j));
            } else {
                assert forall|x: Vertex| s.contains(x) implies #[trigger] inner3(c, i, j)(x)
                    == 0 by {}
                lemma_sum_zero(s, inner3(c, i, j));
            }
        }
        lemma_sum_restrict(ni, s, shared_second(g, i), mid3(s, c, i));
    }
    lemma_sum_eq(s, shared_first(g), outer3(s, c));
}

/// In a graph without loops the count by common neighbours is six times
/// the number of triangles: every triangle is met once for each order of
/// its corners.
pub proof fn lemma_shared_is_six_times_triangles(g: Graph)
    requires
        g.wf(),
        forall|v: Vertex| !g.has_edge(v, v),
    ensures
        shared_neighbor_count(g) == 6 * triangle_count(g),
{
    let s = g.vertices();
    let c = cornered(g);
    let o = ascending(g);
    let via_ikj = swapped23(o);
    let via_jik = swapped12(o);
    let via_kij = swapped23(via_jik);
    let via_jki = swapped12(via_ikj);
    let via_kji = swapped12(via_kij);
    lemma_sum3_swap23(s, o, via_ikj);
    lemma_sum3_swap12(s, o, via_jik);
    lemma_sum3_swap23(s, via_jik, via_kij);
    lemma_sum3_swap12(s, via_ikj, via_jki);
    lemma_sum3_swap12(s, via_kij, via_kji);
    let upto_two = plus(o, via_ikj);
    let upto_three = plus(upto_two, via_jik);
    let upto_four = plus(upto_three, via_kij);
    let upto_five = plus(upto_four, via_jki);
    let all_six = plus(upto_five, via_kji);
    lemma_sum3_add(s, o, via_ikj, upto_two);
    lemma_sum3_add(s, upto_two, via_jik, upto_three);
    lemma_sum3_add(s, upto_three, via_kij, upto_four);
    lemma_sum3_add(s, upto_four, via_jki, upto_five);
    lemma_sum3_add(s, upto_five, via_kji, all_six);
    assert(sum3(s, all_six) == 6 * sum3(s, o));
    assert forall|i: Vertex, j: Vertex, k: Vertex| #[trigger] c(i, j, k) == all_six(i, j, k) by {
        assert(g.has_edge(i, j) == g.has_edge(j, i));
        assert(g.has_edge(i, k) == g.has_edge(k, i));
        assert(g.has_edge(j, k) == g.has_edge(k, j));
        assert(!g.has_edge(i, i) && !g.has_edge(j, j) && !g.has_edge(k, k));
        assert(all_six(i, j, k) == o(i, j, k) + o(i, k, j) + o(j, i, k) + o(k, i, j) + o(j, k, i) + o(
            k,
            j,
            i,
        ));
    }
    lemma_sum3_eq(s, c, all_six);
    lemma_triangles_as_triples(g);
    lemma_shared_as_triples(g);
}

} // verus!
