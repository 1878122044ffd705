//! Exact counts of triangles, stars, 4-cliques and near-4-cliques.
//!
//! Every count is a nested sum over the vertex list and over neighbour
//! lists, one level for each vertex of the pattern. Each level has a spec
//! function that gives the term it sums, and an executable function that
//! computes the sum. A result of `None` stands for a count above `u64::MAX`.

use vstd::prelude::*;
use crate::combinatorics::{binom, binomial_of, lemma_binom_beyond, lemma_binom_full};
use crate::graph::{edge_exists, Graph, Vertex};
use crate::sums::{
    accumulate,
    lemma_sum_eq,
    lemma_sum_prefix_le,
    lemma_sum_restrict,
    lemma_sum_take_succ,
    lemma_sum_zero,
    sum_over,
};

verus! {

/// What an executable count may return for the mathematical count `n`.
pub open spec fn counts(r: Option<u64>, n: nat) -> bool {
    match r {
        Some(c) => c == n,
        None => n > u64::MAX,
    }
}

// ---------------------------------------------------------------------
// Triangles, by ascending triples
// ---------------------------------------------------------------------

/// 1 for `k` above `j` and joined to both `i` and `j`, else 0.
pub open spec fn triangle_third(g: Graph, i: Vertex, j: Vertex) -> spec_fn(Vertex) -> nat {
    |k: Vertex|
        if j < k && g.has_edge(i, k) && g.has_edge(j, k) {
            1nat
        } else {
            0nat
        }
}

/// The number of triangles `i < j < k` with the given `i` and `j`.
pub open spec fn triangle_second(g: Graph, i: Vertex) -> spec_fn(Vertex) -> nat {
    |j: Vertex|
        if i < j && g.has_edge(i, j) {
            sum_over(g.vertices(), triangle_third(g, i, j))
        } else {
            0nat
        }
}

/// The number of triangles `i < j < k` with the given `i`.
pub open spec fn triangle_first(g: Graph) -> spec_fn(Vertex) -> nat {
    |i: Vertex| sum_over(g.vertices(), triangle_second(g, i))
}

/// The number of triples of vertices `i < j < k` that are joined pairwise.
pub open spec fn triangle_count(g: Graph) -> nat {
    sum_over(g.vertices(), triangle_first(g))
}

fn triangles_on_pair(g: &Graph, i: Vertex, j: Vertex) -> (c: u64)
    requires
        g.wf(),
    ensures
        c == sum_over(g.vertices(), triangle_third(*g, i, j)),
{
    let ghost s = g.vertices();
    let ghost f = triangle_third(*g, i, j);
    let n = g.vertex_count();
    let mut total: u64 = 0;
    let mut at: usize = 0;
    while at < n
        invariant
            g.wf(),
            s == g.vertices(),
            f == triangle_third(*g, i, j),
            n == s.len(),
            at <= n,
            total == sum_over(s.take(at as int), f),
            total <= at,
        decreases n - at,
    {
        let k = g.vertex_at(at);
        proof {
            lemma_sum_take_succ(s, f, at as int);
        }
        if j < k && edge_exists(g, i, k) && edge_exists(g, j, k) {
            total += 1;
        }
        at += 1;
    }
    assert(s.take(n as int) =~= s);
    total
}

fn triangles_from(g: &Graph, i: Vertex) -> (r: Option<u64>)
    requires
        g.wf(),
    ensures
        counts(r, sum_over(g.vertices(), triangle_second(*g, i))),
{
    let ghost s = g.vertices();
    let ghost f = triangle_second(*g, i);
    let n = g.vertex_count();
    let mut total: u64 = 0;
    let mut at: usize = 0;
    while at < n
        invariant
            g.wf(),
            s == g.vertices(),
            f == triangle_second(*g, i),
            n == s.len(),
            at <= n,
            total == sum_over(s.take(at as int), f),
        decreases n - at,
    {
        let j = g.vertex_at(at);
        let part = if i < j && edge_exists(g, i, j) {
            Some(triangles_on_pair(g, i, j))
        } else {
            Some(0)
        };
        proof {
            lemma_sum_take_succ(s, f, at as int);
            lemma_sum_prefix_le(s, f, at + 1);
        }
        match accumulate(total, part) {
            Some(t) => {
                total = t;
            },
            None => {
                return None;
            },
        }
        at += 1;
    }
    assert(s.take(n as int) =~= s);
    Some(total)
}

/// The number of triangles, each counted once: the triples of vertices
/// `i < j < k` with all three edges.
pub fn num_triangles(g: &Graph) -> (r: Option<u64>)
    requires
        g.wf(),
    ensures
        counts(r, triangle_count(*g)),
{
    let ghost s = g.vertices();
    let ghost f = triangle_first(*g);
    let n = g.vertex_count();
    let mut total: u64 = 0;
    let mut at: usize = 0;
    while at < n
        invariant
            g.wf(),
            s == g.vertices(),
            f == triangle_first(*g),
            n == s.len(),
            at <= n,
            total == sum_over(s.take(at as int), f),
        decreases n - at,
    {
        let i = g.vertex_at(at);
        let part = triangles_from(g, i);
        proof {
            lemma_sum_take_succ(s, f, at as int);
            lemma_sum_prefix_le(s, f, at + 1);
        }
        match accumulate(total, part) {
            Some(t) => {
                total = t;
            },
            None => {
                return None;
            },
        }
        at += 1;
    }
    assert(s.take(n as int) =~= s);
    Some(total)
}

// ---------------------------------------------------------------------
// Triangles, by common neighbours
// ---------------------------------------------------------------------

/// 1 for a neighbour of `j`, else 0.
pub open spec fn shared_third(g: Graph, j: Vertex) -> spec_fn(Vertex) -> nat {
    |x: Vertex|
        if g.has_edge(j, x) {
            1nat
        } else {
            0nat
        }
}

/// The number of neighbours that `i` has in common with `j`.
pub open spec fn shared_second(g: Graph, i: Vertex) -> spec_fn(Vertex) -> nat {
    |j: Vertex| sum_over(g.neighbors(i), shared_third(g, j))
}

/// The common neighbours of `i` and `j`, summed over the neighbours `j` of `i`.
pub open spec fn shared_first(g: Graph) -> spec_fn(Vertex) -> nat {
    |i: Vertex| sum_over(g.neighbors(i), shared_second(g, i))
}

/// The number of triples `(i, j, x)` in which `j` is a neighbour of `i` and
/// `x` a neighbour of both. In a graph without loops every triangle gives
/// six of them, one for each order of its corners.
pub open spec fn shared_neighbor_count(g: Graph) -> nat {
    sum_over(g.vertices(), shared_first(g))
}

fn shared_on_pair(g: &Graph, i: Vertex, j: Vertex) -> (c: u64)
    requires
        g.wf(),
    ensures
        c == sum_over(g.neighbors(i), shared_third(*g, j)),
{
    let ghost s = g.neighbors(i);
    let ghost f = shared_third(*g, j);
    let mut total: u64 = 0;
    match g.try_neighbors(i) {
        Some(row) => {
            let n = row.len();
            let mut at: usize = 0;
            while at < n
                invariant
                    g.wf(),
                    s == row@,
                    s == g.neighbors(i),
                    f == shared_third(*g, j),
                    n == s.len(),
                    at <= n,
                    total == sum_over(s.take(at as int), f),
                    total <= at,
                decreases n - at,
            {
                let x = row[at];
                proof {
                    lemma_sum_take_succ(s, f, at as int);
                }
                if edge_exists(g, j, x) {
                    total += 1;
                }
                at += 1;
            }
            assert(s.take(n as int) =~= s);
        },
        None => {},
    }
    total
}

fn shared_from(g: &Graph, i: Vertex) -> (r: Option<u64>)
    requires
        g.wf(),
    ensures
        counts(r, sum_over(g.neighbors(i), shared_second(*g, i))),
{
    let ghost s = g.neighbors(i);
    let ghost f = shared_second(*g, i);
    let mut total: u64 = 0;
    match g.try_neighbors(i) {
        Some(row) => {
            let n = row.len();
            let mut at: usize = 0;
            while at < n
                invariant
                    g.wf(),
                    s == row@,
                    s == g.neighbors(i),
                    f == shared_second(*g, i),
                    n == s.len(),
                    at <= n,
                    total == sum_over(s.take(at as int), f),
                decreases n - at,
            {
                let x = row[at];
                let part = Some(shared_on_pair(g, i, x));
                proof {
                    lemma_sum_take_succ(s, f, at as int);
                    lemma_sum_prefix_le(s, f, at + 1);
                }
                match accumulate(total, part) {
                    Some(t) => {
                        total = t;
                    },
                    None => {
                        return None;
                    },
                }
                at += 1;
            }
            assert(s.take(n as int) =~= s);
        },
        None => {},
    }
    Some(total)
}

/// The triangle count by common neighbours: for every vertex and each of
/// its neighbours, the number of neighbours that the two share. This is six
/// times the number of triangles of a graph without loops, not the number
/// itself.
pub fn num_triangles_1(g: &Graph) -> (r: Option<u64>)
    requires
        g.wf(),
    ensures
        counts(r, shared_neighbor_count(*g)),
{
    let ghost s = g.vertices();
    let ghost f = shared_first(*g);
    let n = g.vertex_count();
    let mut total: u64 = 0;
    let mut at: usize = 0;
    while at < n
        invariant
            g.wf(),
            s == g.vertices(),
            f == shared_first(*g),
            n == s.len(),
            at <= n,
            total == sum_over(s.take(at as int), f),
        decreases n - at,
    {
        let x = g.vertex_at(at);
        let part = shared_from(g, x);
        proof {
            lemma_sum_take_succ(s, f, at as int);
            lemma_sum_prefix_le(s, f, at + 1);
        }
        match accumulate(total, part) {
            Some(t) => {
                total = t;
            },
            None => {
                return None;
            },
        }
        at += 1;
    }
    assert(s.take(n as int) =~= s);
    Some(total)
}

// ---------------------------------------------------------------------
// 4-cliques
// ---------------------------------------------------------------------

/// 1 for `l` above `k` and joined to both `i` and `j`, else 0.
pub open spec fn clique_fourth(g: Graph, i: Vertex, j: Vertex, k: Vertex) -> spec_fn(Vertex) -> nat {
    |l: Vertex|
        if k < l && g.has_edge(l, j) && g.has_edge(i, l) {
            1nat
        } else {
            0nat
        }
}

/// For `k` above `j` and joined to `i`: the number of neighbours `l` of `k`
/// that complete a 4-clique.
pub open spec fn clique_third(g: Graph, i: Vertex, j: Vertex) -> spec_fn(Vertex) -> nat {
    |k: Vertex|
        if j < k && g.has_edge(i, k) {
            sum_over(g.neighbors(k), clique_fourth(g, i, j, k))
        } else {
            0nat
        }
}

/// For `j` above `i`: the 4-cliques `i < j < k < l`, with `k` taken from the
/// neighbours of `j`.
pub open spec fn clique_second(g: Graph, i: Vertex) -> spec_fn(Vertex) -> nat {
    |j: Vertex|
        if i < j {
            sum_over(g.neighbors(j), clique_third(g, i, j))
        } else {
            0nat
        }
}

/// The 4-cliques whose least vertex is `i`, with `j` taken from the
/// neighbours of `i`.
pub open spec fn clique_first(g: Graph) -> spec_fn(Vertex) -> nat {
    |i: Vertex| sum_over(g.neighbors(i), clique_second(g, i))
}

/// The sum that the search for 4-cliques runs through: the quadruples
/// `i < j < k < l` with `j` a neighbour of `i`, `k` of `j` and `l` of `k`,
/// and with the edges `i`-`k`, `i`-`l` and `j`-`l`.
pub open spec fn four_clique_walk(g: Graph) -> nat {
    sum_over(g.vertices(), clique_first(g))
}

/// 1 for `i < j < k < l` with all six edges among them, else 0.
pub open spec fn clique_quad(g: Graph, i: Vertex, j: Vertex, k: Vertex) -> spec_fn(Vertex) -> nat {
    |l: Vertex|
        if i < j && j < k && k < l && g.has_edge(i, j) && g.has_edge(i, k) && g.has_edge(i, l)
            && g.has_edge(j, k) && g.has_edge(j, l) && g.has_edge(k, l) {
            1nat
        } else {
            0nat
        }
}

/// For each `k`, the number of `l` that make `i < j < k < l` a 4-clique.
pub open spec fn clique_quads_third(g: Graph, i: Vertex, j: Vertex) -> spec_fn(Vertex) -> nat {
    |k: Vertex| sum_over(g.vertices(), clique_quad(g, i, j, k))
}

/// For each `j`, the number of 4-cliques `i < j < k < l`.
pub open spec fn clique_quads_second(g: Graph, i: Vertex) -> spec_fn(Vertex) -> nat {
    |j: Vertex| sum_over(g.vertices(), clique_quads_third(g, i, j))
}

/// For each `i`, the number of 4-cliques whose least vertex it is.
pub open spec fn clique_quads_first(g: Graph) -> spec_fn(Vertex) -> nat {
    |i: Vertex| sum_over(g.vertices(), clique_quads_second(g, i))
}

/// The number of 4-cliques: the quadruples of vertices `i < j < k < l` with
/// all six edges among them.
pub open spec fn four_clique_count(g: Graph) -> nat {
    sum_over(g.vertices(), clique_quads_first(g))
}

/// The search through neighbour lists meets every 4-clique once and
/// nothing else.
pub proof fn lemma_four_clique_walk(g: Graph)
    requires
        g.wf(),
    ensures
        four_clique_walk(g) == four_clique_count(g),
{
    let s = g.vertices();
    assert forall|i: Vertex| s.contains(i) implies #[trigger] clique_first(g)(i)
        == clique_quads_first(g)(i) by {
        let ni = g.neighbors(i);
        assert forall|j: Vertex| s.contains(j) implies #[trigger] clique_quads_second(g, i)(j) == (if ni.contains(
            j,
        ) {
            clique_second(g, i)(j)
        } else {
            0
        }) by {
            let nj = g.neighbors(j);
            assert forall|k: Vertex| s.contains(k) implies #[trigger] clique_quads_third(g, i, j)(k)
                == (if nj.contains(k) && ni.contains(j) && i < j {
                clique_third(g, i, j)(k)
            } else {
                0
            }) by {
                let nk = g.neighbors(k);
                assert(g.has_edge(i, j) == ni.contains(j));
                assert(g.has_edge(j, k) == nj.contains(k));
                if nj.contains(k) && ni.contains(j) && i < j && j < k && g.has_edge(i, k) {
                    assert forall|l: Vertex| s.contains(l) implies #[trigger] clique_quad(g, i, j, k)(
                        l,
                    ) == (if nk.contains(l) {
                        clique_fourth(g, i, j, k)(l)
                    } else {
                        0
                    }) by {
                        assert(g.has_edge(k, l) == nk.contains(l));
                        assert(g.has_edge(l, j) == g.has_edge(j, l));
                    }
                    lemma_sum_restrict(nk, s, clique_fourth(g, i, j, k), clique_quad(g, i, j, k));
                } else {
                    assert forall|l: Vertex| s.contains(l) implies #[trigger] clique_quad(g, i, j, k)(
                        l,
                    ) == 0 by {}
                    lemma_sum_zero(s, clique_quad(g, i, j, k));
                }
            }
            if ni.contains(j) && i < j {
                lemma_sum_restrict(nj, s, clique_third(g, i, j), clique_quads_third(g, i, j));
            } else {
                lemma_sum_zero(s, clique_quads_third(g, i, j));
            }
        }
        lemma_sum_restrict(ni, s, clique_second(g, i), clique_quads_second(g, i));
    }
    lemma_sum_eq(s, clique_first(g), clique_quads_first(g));
}

fn cliques_on_triple(g: &Graph, i: Vertex, j: Vertex, k: Vertex) -> (c: u64)
    requires
        g.wf(),
    ensures
        c == sum_over(g.neighbors(k), clique_fourth(*g, i, j, k)),
{
    let ghost s = g.neighbors(k);
    let ghost f = clique_fourth(*g, i, j, k);
    let mut total: u64 = 0;
    match g.try_neighbors(k) {
        Some(row) => {
            let n = row.len();
            let mut at: usize = 0;
            while at < n
                invariant
                    g.wf(),
                    s == row@,
                    s == g.neighbors(k),
                    f == clique_fourth(*g, i, j, k),
                    n == s.len(),
                    at <= n,
                    total == sum_over(s.take(at as int), f),
                    total <= at,
                decreases n - at,
            {
                let x = row[at];
                proof {
                    lemma_sum_take_succ(s, f, at as int);
                }
                if k < x && edge_exists(g, x, j) && edge_exists(g, i, x) {
                    total += 1;
                }
                at += 1;
            }
            assert(s.take(n as int) =~= s);
        },
        None => {},
    }
    total
}

fn cliques_on_pair(g: &Graph, i: Vertex, j: Vertex) -> (r: Option<u64>)
    requires
        g.wf(),
    ensures
        counts(r, sum_over(g.neighbors(j), clique_third(*g, i, j))),
{
    let ghost s = g.neighbors(j);
    let ghost f = clique_third(*g, i, j);
    let mut total: u64 = 0;
    match g.try_neighbors(j) {
        Some(row) => {
            let n = row.len();
            let mut at: usize = 0;
            while at < n
                invariant
                    g.wf(),
                    s == row@,
                    s == g.neighbors(j),
                    f == clique_third(*g, i, j),
                    n == s.len(),
                    at <= n,
                    total == sum_over(s.take(at as int), f),
                decreases n - at,
            {
                let x = row[at];
                let part = if j < x && edge_exists(g, i, x) {
                    Some(cliques_on_triple(g, i, j, x))
                } else {
                    Some(0)
                };
                proof {
                    lemma_sum_take_succ(s, f, at as int);
                    lemma_sum_prefix_le(s, f, at + 1);
                }
                match accumulate(total, part) {
                    Some(t) => {
                        total = t;
                    },
                    None => {
                        return None;
                    },
                }
                at += 1;
            }
            assert(s.take(n as int) =~= s);
        },
        None => {},
    }
    Some(total)
}

fn cliques_from(g: &Graph, i: Vertex) -> (r: Option<u64>)
    requires
        g.wf(),
    ensures
        counts(r, sum_over(g.neighbors(i), clique_second(*g, i))),
{
    let ghost s = g.neighbors(i);
    let ghost f = clique_second(*g, i);
    let mut total: u64 = 0;
    match g.try_neighbors(i) {
        Some(row) => {
            let n = row.len();
            let mut at: usize = 0;
            while at < n
                invariant
                    g.wf(),
                    s == row@,
                    s == g.neighbors(i),
                    f == clique_second(*g, i),
                    n == s.len(),
                    at <= n,
                    total == sum_over(s.take(at as int), f),
                decreases n - at,
            {
                let x = row[at];
                let part = if i < x {
                    cliques_on_pair(g, i, x)
                } else {
                    Some(0)
                };
                proof {
                    lemma_sum_take_succ(s, f, at as int);
                    lemma_sum_prefix_le(s, f, at + 1);
                }
                match accumulate(total, part) {
                    Some(t) => {
                        total = t;
                    },
                    None => {
                        return None;
                    },
                }
                at += 1;
            }
            assert(s.take(n as int) =~= s);
        },
        None => {},
    }
    Some(total)
}

/// The number of 4-cliques, each counted once, by its vertices in ascending
/// order. The work grows with the cube of the largest degree.
pub fn num_4_cliques(g: &Graph) -> (r: Option<u64>)
    requires
        g.wf(),
    ensures
        counts(r, four_clique_count(*g)),
{
    let ghost s = g.vertices();
    let ghost f = clique_first(*g);
    proof {
        lemma_four_clique_walk(*g);
    }
    let n = g.vertex_count();
    let mut total: u64 = 0;
    let mut at: usize = 0;
    while at < n
        invariant
            g.wf(),
            s == g.vertices(),
            f == clique_first(*g),
            four_clique_walk(*g) == four_clique_count(*g),
            n == s.len(),
            at <= n,
            total == sum_over(s.take(at as int), f),
        decreases n - at,
    {
        let x = g.vertex_at(at);
        let part = cliques_from(g, x);
        proof {
            lemma_sum_take_succ(s, f, at as int);
            lemma_sum_prefix_le(s, f, at + 1);
        }
        match accumulate(total, part) {
            Some(t) => {
                total = t;
            },
            None => {
                return None;
            },
        }
        at += 1;
    }
    assert(s.take(n as int) =~= s);
    Some(total)
}

// ---------------------------------------------------------------------
// 4-cliques, loosely
// ---------------------------------------------------------------------

/// 1 for `i < j < k < l` with `l` joined to `i` and `j`, and `i` to `j`;
/// else 0.
pub open spec fn loose_fourth(g: Graph, i: Vertex, j: Vertex, k: Vertex) -> spec_fn(Vertex) -> nat {
    |l: Vertex|
        if i < j && j < k && k < l && g.has_edge(i, l) && g.has_edge(j, i) && g.has_edge(j, l) {
            1nat
        } else {
            0nat
        }
}

/// The number of neighbours `l` of `j` that pass for the given `k`.
pub open spec fn loose_third(g: Graph, i: Vertex, j: Vertex) -> spec_fn(Vertex) -> nat {
    |k: Vertex| sum_over(g.neighbors(j), loose_fourth(g, i, j, k))
}

/// The same, summed over the neighbours `k` of `j`.
pub open spec fn loose_second(g: Graph, i: Vertex) -> spec_fn(Vertex) -> nat {
    |j: Vertex| sum_over(g.neighbors(j), loose_third(g, i, j))
}

/// The same, summed over the neighbours `j` of `i`.
pub open spec fn loose_first(g: Graph) -> spec_fn(Vertex) -> nat {
    |i: Vertex| sum_over(g.neighbors(i), loose_second(g, i))
}

/// The number of quadruples `i < j < k < l` in which `j` is joined to the
/// three others and `i` to `l`. Nothing is asked of the pairs `i`, `k` and
/// `k`, `l`.
pub open spec fn loose_four_clique_count(g: Graph) -> nat {
    sum_over(g.vertices(), loose_first(g))
}

fn loose_on_triple(g: &Graph, i: Vertex, j: Vertex, k: Vertex) -> (c: u64)
    requires
        g.wf(),
    ensures
        c == sum_over(g.neighbors(j), loose_fourth(*g, i, j, k)),
{
    let ghost s = g.neighbors(j);
    let ghost f = loose_fourth(*g, i, j, k);
    let mut total: u64 = 0;
    match g.try_neighbors(j) {
        Some(row) => {
            let n = row.len();
            let mut at: usize = 0;
            while at < n
                invariant
                    g.wf(),
                    s == row@,
                    s == g.neighbors(j),
                    f == loose_fourth(*g, i, j, k),
                    n == s.len(),
                    at <= n,
                    total == sum_over(s.take(at as int), f),
                    total <= at,
                decreases n - at,
            {
                let x = row[at];
                proof {
                    lemma_sum_take_succ(s, f, at as int);
                }
                if i < j && j < k && k < x && edge_exists(g, i, x) && edge_exists(g, j, i)
                    && edge_exists(g, j, x) {
                    total += 1;
                }
                at += 1;
            }
            assert(s.take(n as int) =~= s);
        },
        None => {},
    }
    total
}

fn loose_on_pair(g: &Graph, i: Vertex, j: Vertex) -> (r: Option<u64>)
    requires
        g.wf(),
    ensures
        counts(r, sum_over(g.neighbors(j), loose_third(*g, i, j))),
{
    let ghost s = g.neighbors(j);
    let ghost f = loose_third(*g, i, j);
    let mut total: u64 = 0;
    match g.try_neighbors(j) {
        Some(row) => {
            let n = row.len();
            let mut at: usize = 0;
            while at < n
                invariant
                    g.wf(),
                    s == row@,
                    s == g.neighbors(j),
                    f == loose_third(*g, i, j),
                    n == s.len(),
                    at <= n,
                    total == sum_over(s.take(at as int), f),
                decreases n - at,
            {
                let x = row[at];
                let part = Some(loose_on_triple(g, i, j, x));
                proof {
                    lemma_sum_take_succ(s, f, at as int);
                    lemma_sum_prefix_le(s, f, at + 1);
                }
                match accumulate(total, part) {
                    Some(t) => {
                        total = t;
                    },
                    None => {
                        return None;
                    },
                }
                at += 1;
            }
            assert(s.take(n as int) =~= s);
        },
        None => {},
    }
    Some(total)
}

fn loose_from(g: &Graph, i: Vertex) -> (r: Option<u64>)
    requires
        g.wf(),
    ensures
        counts(r, sum_over(g.neighbors(i), loose_second(*g, i))),
{
    let ghost s = g.neighbors(i);
    let ghost f = loose_second(*g, i);
    let mut total: u64 = 0;
    match g.try_neighbors(i) {
        Some(row) => {
            let n = row.len();
            let mut at: usize = 0;
            while at < n
                invariant
                    g.wf(),
                    s == row@,
                    s == g.neighbors(i),
                    f == loose_second(*g, i),
                    n == s.len(),
                    at <= n,
                    total == sum_over(s.take(at as int), f),
                decreases n - at,
            {
                let x = row[at];
                let part = loose_on_pair(g, i, x);
                proof {
                    lemma_sum_take_succ(s, f, at as int);
                    lemma_sum_prefix_le(s, f, at + 1);
                }
                match accumulate(total, part) {
                    Some(t) => {
                        total = t;
                    },
                    None => {
                        return None;
                    },
                }
                at += 1;
            }
            assert(s.take(n as int) =~= s);
        },
        None => {},
    }
    Some(total)
}

/// The loose count of 4-cliques: it looks at four of the six edges only, so
/// it is not the number of 4-cliques unless the graph is such that the other
/// two follow.
pub fn num_4_cliques_err(g: &Graph) -> (r: Option<u64>)
    requires
        g.wf(),
    ensures
        counts(r, loose_four_clique_count(*g)),
{
    let ghost s = g.vertices();
    let ghost f = loose_first(*g);
    let n = g.vertex_count();
    let mut total: u64 = 0;
    let mut at: usize = 0;
    while at < n
        invariant
            g.wf(),
            s == g.vertices(),
            f == loose_first(*g),
            n == s.len(),
            at <= n,
            total == sum_over(s.take(at as int), f),
        decreases n - at,
    {
        let x = g.vertex_at(at);
        let part = loose_from(g, x);
        proof {
            lemma_sum_take_succ(s, f, at as int);
            lemma_sum_prefix_le(s, f, at + 1);
        }
        match accumulate(total, part) {
            Some(t) => {
                total = t;
            },
            None => {
                return None;
            },
        }
        at += 1;
    }
    assert(s.take(n as int) =~= s);
    Some(total)
}

// ---------------------------------------------------------------------
// Near-4-cliques
// ---------------------------------------------------------------------

/// 1 for `l` above `i`, other than `j` and `k`, joined to `j` and not to
/// `i`; else 0.
pub open spec fn near_fourth(g: Graph, i: Vertex, j: Vertex, k: Vertex) -> spec_fn(Vertex) -> nat {
    |l: Vertex|
        if i < l && l != j && l != k && g.has_edge(l, j) && !g.has_edge(i, l) {
            1nat
        } else {
            0nat
        }
}

/// For `k` above `j`, other than `i` and joined to `i`: the number of
/// neighbours `l` of `k` that complete a near-4-clique.
pub open spec fn near_third(g: Graph, i: Vertex, j: Vertex) -> spec_fn(Vertex) -> nat {
    |k: Vertex|
        if j < k && k != i && g.has_edge(i, k) {
            sum_over(g.neighbors(k), near_fourth(g, i, j, k))
        } else {
            0nat
        }
}

/// For `j` other than `i`: the near-4-cliques on `i` and `j`, with `k` taken
/// from the neighbours of `j`.
pub open spec fn near_second(g: Graph, i: Vertex) -> spec_fn(Vertex) -> nat {
    |j: Vertex|
        if j != i {
            sum_over(g.neighbors(j), near_third(g, i, j))
        } else {
            0nat
        }
}

/// The near-4-cliques in which `i` is the lesser of the two vertices that
/// are not joined.
pub open spec fn near_first(g: Graph) -> spec_fn(Vertex) -> nat {
    |i: Vertex| sum_over(g.neighbors(i), near_second(g, i))
}

/// The sum that the search for near-4-cliques runs through: `j` a
/// neighbour of `i`, `k` of `j` and of `i`, `l` of `k` and of `j`.
pub open spec fn near_four_clique_walk(g: Graph) -> nat {
    sum_over(g.vertices(), near_first(g))
}

/// 1 for four distinct vertices with `i < l` not joined, `j < k`, and the
/// five other edges among them; else 0.
pub open spec fn near_quad(g: Graph, i: Vertex, j: Vertex, k: Vertex) -> spec_fn(Vertex) -> nat {
    |l: Vertex|
        if i < l && j < k && i != j && i != k && l != j && l != k && g.has_edge(i, j) && g.has_edge(
            i,
            k,
        ) && g.has_edge(j, k) && g.has_edge(j, l) && g.has_edge(k, l) && !g.has_edge(i, l) {
            1nat
        } else {
            0nat
        }
}

/// For each `k`, the number of `l` that make a near-4-clique with `i`, `j`
/// and `k`.
pub open spec fn near_quads_third(g: Graph, i: Vertex, j: Vertex) -> spec_fn(Vertex) -> nat {
    |k: Vertex| sum_over(g.vertices(), near_quad(g, i, j, k))
}

/// For each `j`, the number of near-4-cliques on `i` and `j`.
pub open spec fn near_quads_second(g: Graph, i: Vertex) -> spec_fn(Vertex) -> nat {
    |j: Vertex| sum_over(g.vertices(), near_quads_third(g, i, j))
}

/// For each `i`, the number of near-4-cliques in which it is the lesser of
/// the pair that is not joined.
pub open spec fn near_quads_first(g: Graph) -> spec_fn(Vertex) -> nat {
    |i: Vertex| sum_over(g.vertices(), near_quads_second(g, i))
}

/// The number of near-4-cliques: the sets of four distinct vertices with
/// exactly five of the six edges among them. Each is written in one way
/// as `i`, `j`, `k`, `l` with `i < l` the pair that is not joined and
/// `j < k` the other two.
pub open spec fn near_four_clique_count(g: Graph) -> nat {
    sum_over(g.vertices(), near_quads_first(g))
}

/// The search through neighbour lists meets every near-4-clique once and
/// nothing else.
pub proof fn lemma_near_four_clique_walk(g: Graph)
    requires
        g.wf(),
    ensures
        near_four_clique_walk(g) == near_four_clique_count(g),
{
    let s = g.vertices();
    assert forall|i: Vertex| s.contains(i) implies #[trigger] near_first(g)(i) == near_quads_first(
        g,
    )(i) by {
        let ni = g.neighbors(i);
        assert forall|j: Vertex| s.contains(j) implies #[trigger] near_quads_second(g, i)(j) == (if ni.contains(
            j,
        ) {
            near_second(g, i)(j)
        } else {
            0
        }) by {
            let nj = g.neighbors(j);
            assert forall|k: Vertex| s.contains(k) implies #[trigger] near_quads_third(g, i, j)(k)
                == (if nj.contains(k) && ni.contains(j) && j != i {
                near_third(g, i, j)(k)
            } else {
                0
            }) by {
                let nk = g.neighbors(k);
                assert(g.has_edge(i, j) == ni.contains(j));
                assert(g.has_edge(j, k) == nj.contains(k));
                if nj.contains(k) && ni.contains(j) && j != i && j < k && k != i && g.has_edge(i, k) {
                    assert forall|l: Vertex| s.contains(l) implies #[trigger] near_quad(g, i, j, k)(
                        l,
                    ) == (if nk.contains(l) {
                        near_fourth(g, i, j, k)(l)
                    } else {
                        0
                    }) by {
                        assert(g.has_edge(k, l) == nk.contains(l));
                        assert(g.has_edge(l, j) == g.has_edge(j, l));
                    }
                    lemma_sum_restrict(nk, s, near_fourth(g, i, j, k), near_quad(g, i, j, k));
                } else {
                    assert forall|l: Vertex| s.contains(l) implies #[trigger] near_quad(g, i, j, k)(
                        l,
                    ) == 0 by {}
                    lemma_sum_zero(s, near_quad(g, i, j, k));
                }
            }
            if ni.contains(j) && j != i {
                lemma_sum_restrict(nj, s, near_third(g, i, j), near_quads_third(g, i, j));
            } else {
                lemma_sum_zero(s, near_quads_third(g, i, j));
            }
        }
        lemma_sum_restrict(ni, s, near_second(g, i), near_quads_second(g, i));
    }
    lemma_sum_eq(s, near_first(g), near_quads_first(g));
}

fn near_on_triple(g: &Graph, i: Vertex, j: Vertex, k: Vertex) -> (c: u64)
    requires
        g.wf(),
    ensures
        c == sum_over(g.neighbors(k), near_fourth(*g, i, j, k)),
{
    let ghost s = g.neighbors(k);
    let ghost f = near_fourth(*g, i, j, k);
    let mut total: u64 = 0;
    match g.try_neighbors(k) {
        Some(row) => {
            let n = row.len();
            let mut at: usize = 0;
            while at < n
                invariant
                    g.wf(),
                    s == row@,
                    s == g.neighbors(k),
                    f == near_fourth(*g, i, j, k),
                    n == s.len(),
                    at <= n,
                    total == sum_over(s.take(at as int), f),
                    total <= at,
                decreases n - at,
            {
                let x = row[at];
                proof {
                    lemma_sum_take_succ(s, f, at as int);
                }
                if i < x && x != j && x != k && edge_exists(g, x, j) && !edge_exists(g, i, x) {
                    total += 1;
                }
                at += 1;
            }
            assert(s.take(n as int) =~= s);
        },
        None => {},
    }
    total
}

fn near_on_pair(g: &Graph, i: Vertex, j: Vertex) -> (r: Option<u64>)
    requires
        g.wf(),
    ensures
        counts(r, sum_over(g.neighbors(j), near_third(*g, i, j))),
{
    let ghost s = g.neighbors(j);
    let ghost f = near_third(*g, i, j);
    let mut total: u64 = 0;
    match g.try_neighbors(j) {
        Some(row) => {
            let n = row.len();
            let mut at: usize = 0;
            while at < n
                invariant
                    g.wf(),
                    s == row@,
                    s == g.neighbors(j),
                    f == near_third(*g, i, j),
                    n == s.len(),
                    at <= n,
                    total == sum_over(s.take(at as int), f),
                decreases n - at,
            {
                let x = row[at];
                let part = if j < x && x != i && edge_exists(g, i, x) {
                    Some(near_on_triple(g, i, j, x))
                } else {
                    Some(0)
                };
                proof {
                    lemma_sum_take_succ(s, f, at as int);
                    lemma_sum_prefix_le(s, f, at + 1);
                }
                match accumulate(total, part) {
                    Some(t) => {
                        total = t;
                    },
                    None => {
                        return None;
                    },
                }
                at += 1;
            }
            assert(s.take(n as int) =~= s);
        },
        None => {},
    }
    Some(total)
}

fn near_from(g: &Graph, i: Vertex) -> (r: Option<u64>)
    requires
        g.wf(),
    ensures
        counts(r, sum_over(g.neighbors(i), near_second(*g, i))),
{
    let ghost s = g.neighbors(i);
    let ghost f = near_second(*g, i);
    let mut total: u64 = 0;
    match g.try_neighbors(i) {
        Some(row) => {
            let n = row.len();
            let mut at: usize = 0;
            while at < n
                invariant
                    g.wf(),
                    s == row@,
                    s == g.neighbors(i),
                    f == near_second(*g, i),
                    n == s.len(),
                    at <= n,
                    total == sum_over(s.take(at as int), f),
                decreases n - at,
            {
                let x = row[at];
                let part = if x != i {
                    near_on_pair(g, i, x)
                } else {
                    Some(0)
                };
                proof {
                    lemma_sum_take_succ(s, f, at as int);
                    lemma_sum_prefix_le(s, f, at + 1);
                }
                match accumulate(total, part) {
                    Some(t) => {
                        total = t;
                    },
                    None => {
                        return None;
                    },
                }
                at += 1;
            }
            assert(s.take(n as int) =~= s);
        },
        None => {},
    }
    Some(total)
}

/// The number of near-4-cliques, each counted once: the pair that is not
/// joined and the pair between them are both taken in ascending order, so
/// nothing is divided out afterwards.
pub fn num_near_4_cliques(g: &Graph) -> (r: Option<u64>)
    requires
        g.wf(),
    ensures
        counts(r, near_four_clique_count(*g)),
{
    let ghost s = g.vertices();
    let ghost f = near_first(*g);
    proof {
        lemma_near_four_clique_walk(*g);
    }
    let n = g.vertex_count();
    let mut total: u64 = 0;
    let mut at: usize = 0;
    while at < n
        invariant
            g.wf(),
            s == g.vertices(),
            f == near_first(*g),
            near_four_clique_walk(*g) == near_four_clique_count(*g),
            n == s.len(),
            at <= n,
            total == sum_over(s.take(at as int), f),
        decreases n - at,
    {
        let x = g.vertex_at(at);
        let part = near_from(g, x);
        proof {
            lemma_sum_take_succ(s, f, at as int);
            lemma_sum_prefix_le(s, f, at + 1);
        }
        match accumulate(total, part) {
            Some(t) => {
                total = t;
            },
            None => {
                return None;
            },
        }
        at += 1;
    }
    assert(s.take(n as int) =~= s);
    Some(total)
}

// ---------------------------------------------------------------------
// Stars
// ---------------------------------------------------------------------

/// The number of `k`-stars centred at a vertex: the ways to pick `k` of its
/// neighbours.
pub open spec fn star_term(g: Graph, k: int) -> spec_fn(Vertex) -> nat {
    |v: Vertex| binom(g.neighbors(v).len() as int, k)
}

/// The number of `k`-stars: over all vertices, the ways to pick `k`
/// neighbours of the vertex.
pub open spec fn k_star_count(g: Graph, k: int) -> nat {
    sum_over(g.vertices(), star_term(g, k))
}

/// A vertex of degree `k - 1` is the centre of no `k`-star, and one of
/// degree `k` is the centre of exactly one.
pub proof fn lemma_star_boundary(g: Graph, k: int, v: Vertex)
    requires
        1 <= k,
    ensures
        g.neighbors(v).len() == k - 1 ==> star_term(g, k)(v) == 0,
        g.neighbors(v).len() == k ==> star_term(g, k)(v) == 1,
{
    if g.neighbors(v).len() == k - 1 {
        lemma_binom_beyond(k - 1, k);
    }
    if g.neighbors(v).len() == k {
        lemma_binom_full(k);
    }
}

/// The number of `k`-stars. A vertex of degree below `k` adds nothing, and
/// no count is taken for a negative `k`.
pub fn num_k_stars(g: &Graph, k: i32) -> (r: Option<u64>)
    requires
        g.wf(),
    ensures
        counts(r, k_star_count(*g, k as int)),
{
    let ghost s = g.vertices();
    let ghost f = star_term(*g, k as int);
    let n = g.vertex_count();
    let mut total: u64 = 0;
    let mut at: usize = 0;
    while at < n
        invariant
            g.wf(),
            s == g.vertices(),
            f == star_term(*g, k as int),
            n == s.len(),
            at <= n,
            total == sum_over(s.take(at as int), f),
        decreases n - at,
    {
        let x = g.vertex_at(at);
        let part = if k < 0 {
            Some(0)
        } else {
            binomial_of(g.degree(x), k as usize)
        };
        proof {
            lemma_sum_take_succ(s, f, at as int);
            lemma_sum_prefix_le(s, f, at + 1);
        }
        match accumulate(total, part) {
            Some(t) => {
                total = t;
            },
            None => {
                return None;
            },
        }
        at += 1;
    }
    assert(s.take(n as int) =~= s);
    Some(total)
}

} // verus!
