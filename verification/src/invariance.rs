//! The counts depend on which vertices and edges a graph has, not on the
//! order in which they were put in.

use vstd::prelude::*;
use crate::combinatorics::binom;
use crate::counting::{
    clique_quad,
    clique_quads_first,
    clique_quads_second,
    clique_quads_third,
    four_clique_count,
    k_star_count,
    near_four_clique_count,
    near_quad,
    near_quads_first,
    near_quads_second,
    near_quads_third,
    star_term,
    triangle_count,
    triangle_first,
    triangle_second,
    triangle_third,
};
use crate::graph::{Graph, Vertex};
use crate::sums::{lemma_sum_restrict, sum_over};

verus! {

/// Two graphs with the same vertices and the same edges.
pub open spec fn same_shape(g: Graph, h: Graph) -> bool {
    &&& forall|v: Vertex| #[trigger] g.vertices().contains(v) == h.vertices().contains(v)
    &&& forall|u: Vertex, v: Vertex| #[trigger]
        g.neighbors(u).contains(v) == h.neighbors(u).contains(v)
}

/// Two lists without repetitions that hold the same entries give the same
/// sum, for terms that agree on them.
pub proof fn lemma_sum_moved(
    s: Seq<Vertex>,
    t: Seq<Vertex>,
    f: spec_fn(Vertex) -> nat,
    h: spec_fn(Vertex) -> nat,
)
    requires
        s.no_duplicates(),
        t.no_duplicates(),
        forall|x: Vertex| s.contains(x) == t.contains(x),
        forall|x: Vertex| t.contains(x) ==> #[trigger] h(x) == f(x),
    ensures
        sum_over(s, f) == sum_over(t, h),
{
    lemma_sum_restrict(s, t, f, h);
}

/// Two lists without repetitions that hold the same entries are equally
/// long.
pub proof fn lemma_same_length(s: Seq<Vertex>, t: Seq<Vertex>)
    requires
        s.no_duplicates(),
        t.no_duplicates(),
        forall|x: Vertex| s.contains(x) == t.contains(x),
    ensures
        s.len() == t.len(),
{
    s.unique_seq_to_set();
    t.unique_seq_to_set();
    assert(s.to_set() =~= t.to_set());
}

/// The number of triangles is the same for two graphs of the same shape.
pub proof fn lemma_triangles_by_shape(g: Graph, h: Graph)
    requires
        g.wf(),
        h.wf(),
        same_shape(g, h),
    ensures
        triangle_count(g) == triangle_count(h),
{
    let s = g.vertices();
    let t = h.vertices();
    assert forall|i: Vertex| t.contains(i) implies #[trigger] triangle_first(h)(i) == triangle_first(
        g,
    )(i) by {
        assert forall|j: Vertex| t.contains(j) implies #[trigger] triangle_second(h, i)(j)
            == triangle_second(g, i)(j) by {
            assert(g.neighbors(i).contains(j) == h.neighbors(i).contains(j));
            assert forall|k: Vertex| t.contains(k) implies #[trigger] triangle_third(h, i, j)(k)
                == triangle_third(g, i, j)(k) by {
                assert(g.neighbors(i).contains(k) == h.neighbors(i).contains(k));
                assert(g.neighbors(j).contains(k) == h.neighbors(j).contains(k));
            }
            lemma_sum_moved(s, t, triangle_third(g, i, j), triangle_third(h, i, j));
        }
        lemma_sum_moved(s, t, triangle_second(g, i), triangle_second(h, i));
    }
    lemma_sum_moved(s, t, triangle_first(g), triangle_first(h));
}

/// The number of 4-cliques is the same for two graphs of the same shape.
pub proof fn lemma_four_cliques_by_shape(g: Graph, h: Graph)
    requires
        g.wf(),
        h.wf(),
        same_shape(g, h),
    ensures
        four_clique_count(g) == four_clique_count(h),
{
    let s = g.vertices();
    let t = h.vertices();
    assert forall|i: Vertex| t.contains(i) implies #[trigger] clique_quads_first(h)(i)
        == clique_quads_first(g)(i) by {
        assert forall|j: Vertex| t.contains(j) implies #[trigger] clique_quads_second(h, i)(j)
            == clique_quads_second(g, i)(j) by {
            assert forall|k: Vertex| t.contains(k) implies #[trigger] clique_quads_third(h, i, j)(k)
                == clique_quads_third(g, i, j)(k) by {
                assert forall|l: Vertex| t.contains(l) implies #[trigger] clique_quad(h, i, j, k)(l)
                    == clique_quad(g, i, j, k)(l) by {
                    assert(g.neighbors(i).contains(j) == h.neighbors(i).contains(j));
                    assert(g.neighbors(i).contains(k) == h.neighbors(i).contains(k));
                    assert(g.neighbors(i).contains(l) == h.neighbors(i).contains(l));
                    assert(g.neighbors(j).contains(k) == h.neighbors(j).contains(k));
                    assert(g.neighbors(j).contains(l) == h.neighbors(j).contains(l));
                    assert(g.neighbors(k).contains(l) == h.neighbors(k).contains(l));
                }
                lemma_sum_moved(s, t, clique_quad(g, i, j, k), clique_quad(h, i, j, k));
            }
            lemma_sum_moved(s, t, clique_quads_third(g, i, j), clique_quads_third(h, i, j));
        }
        lemma_sum_moved(s, t, clique_quads_second(g, i), clique_quads_second(h, i));
    }
    lemma_sum_moved(s, t, clique_quads_first(g), clique_quads_first(h));
}

/// The number of near-4-cliques is the same for two graphs of the same
/// shape.
pub proof fn lemma_near_four_cliques_by_shape(g: Graph, h: Graph)
    requires
        g.wf(),
        h.wf(),
        same_shape(g, h),
    ensures
        near_four_clique_count(g) == near_four_clique_count(h),
{
    let s = g.vertices();
    let t = h.vertices();
    assert forall|i: Vertex| t.contains(i) implies #[trigger] near_quads_first(h)(i)
        == near_quads_first(g)(i) by {
        assert forall|j: Vertex| t.contains(j) implies #[trigger] near_quads_second(h, i)(j)
            == near_quads_second(g, i)(j) by {
            assert forall|k: Vertex| t.contains(k) implies #[trigger] near_quads_third(h, i, j)(k)
                == near_quads_third(g, i, j)(k) by {
                assert forall|l: Vertex| t.contains(l) implies #[trigger] near_quad(h, i, j, k)(l)
                    == near_quad(g, i, j, k)(l) by {
                    assert(g.neighbors(i).contains(j) == h.neighbors(i).contains(j));
                    assert(g.neighbors(i).contains(k) == h.neighbors(i).contains(k));
                    assert(g.neighbors(i).contains(l) == h.neighbors(i).contains(l));
                    assert(g.neighbors(j).contains(k) == h.neighbors(j).contains(k));
                    assert(g.neighbors(j).contains(l) == h.neighbors(j).contains(l));
                    assert(g.neighbors(k).contains(l) == h.neighbors(k).contains(l));
                }
                lemma_sum_moved(s, t, near_quad(g, i, j, k), near_quad(h, i, j, k));
            }
            lemma_sum_moved(s, t, near_quads_third(g, i, j), near_quads_third(h, i, j));
        }
        lemma_sum_moved(s, t, near_quads_second(g, i), near_quads_second(h, i));
    }
    lemma_sum_moved(s, t, near_quads_first(g), near_quads_first(h));
}

/// The number of `k`-stars is the same for two graphs of the same shape.
pub proof fn lemma_k_stars_by_shape(g: Graph, h: Graph, k: int)
    requires
        g.wf(),
        h.wf(),
        same_shape(g, h),
    ensures
        k_star_count(g, k) == k_star_count(h, k),
{
    let s = g.vertices();
    let t = h.vertices();
    assert forall|v: Vertex| t.contains(v) implies #[trigger] star_term(h, k)(v) == star_term(g, k)(
        v,
    ) by {
        assert forall|x: Vertex| g.neighbors(v).contains(x) == h.neighbors(v).contains(x) by {}
        lemma_same_length(g.neighbors(v), h.neighbors(v));
        assert(star_term(h, k)(v) == binom(h.neighbors(v).len() as int, k));
    }
    lemma_sum_moved(s, t, star_term(g, k), star_term(h, k));
}

} // verus!
