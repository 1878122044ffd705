//! The exact quantities that a private release of the star count is built
//! from: the sensitivity that calibrates the noise, and the count under a
//! cap on every vertex's degree.

use vstd::prelude::*;
use crate::combinatorics::{binom, binomial_of, lemma_binom_monotone, min};
use crate::counting::{counts, k_star_count, star_term};
use crate::graph::{Graph, Vertex};
use crate::sums::{accumulate, lemma_sum_le, lemma_sum_prefix_le, lemma_sum_take_succ, sum_over};

verus! {

/// Why a capped count could not be given.
#[derive(Debug, Clone, Copy, PartialEq, Eq, Structural)]
pub enum ReleaseError {
    /// The degree cap is negative.
    NegativeDegreeCap,
    /// The count is above `u64::MAX`.
    CountTooLarge,
}

impl ReleaseError {
    /// The error in words.
    pub fn message(&self) -> (s: &'static str)
        ensures
            *self == ReleaseError::NegativeDegreeCap ==> s@
                == "the degree cap must not be negative"@,
            *self == ReleaseError::CountTooLarge ==> s@ == "the count does not fit in 64 bits"@,
    {
        match self {
            ReleaseError::NegativeDegreeCap => {
                proof {
                    reveal_strlit("the degree cap must not be negative");
                }
                "the degree cap must not be negative"
            },
            ReleaseError::CountTooLarge => {
                proof {
                    reveal_strlit("the count does not fit in 64 bits");
                }
                "the count does not fit in 64 bits"
            },
        }
    }
}

/// By how much one edge can change the number of `k`-stars of a graph on
/// `n` vertices: the ways to pick `k - 1` of the other `n - 1` vertices.
pub open spec fn star_sensitivity(n: int, k: int) -> nat {
    binom(n - 1, k - 1)
}

/// The global sensitivity of the `k`-star count of `g`.
pub fn k_star_sensitivity(g: &Graph, k: i32) -> (r: Option<u64>)
    ensures
        counts(r, star_sensitivity(g.vertices().len() as int, k as int)),
{
    let n = g.vertex_count();
    if n == 0 || k < 1 {
        Some(0)
    } else {
        binomial_of(n - 1, (k - 1) as usize)
    }
}

/// By how much one edge can change the number of `k`-stars at a vertex
/// whose degree is held to `d_max`.
pub open spec fn capped_sensitivity(d_max: int, k: int) -> nat {
    binom(d_max, k - 1)
}

/// The sensitivity of one vertex's `k`-star count under the cap `d_max`.
pub fn capped_star_sensitivity(d_max: i32, k: i32) -> (r: Result<u64, ReleaseError>)
    ensures
        d_max < 0 ==> r == Err::<u64, ReleaseError>(ReleaseError::NegativeDegreeCap),
        d_max >= 0 ==> match r {
            Ok(c) => c == capped_sensitivity(d_max as int, k as int),
            Err(e) => e == ReleaseError::CountTooLarge && capped_sensitivity(
                d_max as int,
                k as int,
            ) > u64::MAX,
        },
{
    if d_max < 0 {
        return Err(ReleaseError::NegativeDegreeCap);
    }
    if k < 1 {
        return Ok(0);
    }
    match binomial_of(d_max as usize, (k - 1) as usize) {
        Some(c) => Ok(c),
        None => Err(ReleaseError::CountTooLarge),
    }
}

/// A degree, held to the cap.
pub open spec fn capped_degree(d: int, d_max: int) -> int {
    if d_max < d {
        d_max
    } else {
        d
    }
}

/// The number of `k`-stars centred at a vertex once its degree is held to
/// `d_max`.
pub open spec fn capped_star_term(g: Graph, k: int, d_max: int) -> spec_fn(Vertex) -> nat {
    |v: Vertex| binom(capped_degree(g.neighbors(v).len() as int, d_max), k)
}

/// The number of `k`-stars once every degree is held to `d_max`.
pub open spec fn capped_k_star_count(g: Graph, k: int, d_max: int) -> nat {
    sum_over(g.vertices(), capped_star_term(g, k, d_max))
}

/// The number of `k`-stars centred at `v` once its degree is held to
/// `d_max`.
pub fn capped_stars_at(g: &Graph, v: Vertex, k: i32, d_max: i32) -> (r: Option<u64>)
    requires
        g.wf(),
        0 <= d_max,
    ensures
        counts(r, capped_star_term(*g, k as int, d_max as int)(v)),
{
    if k < 0 {
        return Some(0);
    }
    let deg = g.degree(v);
    let d: i32 = if deg <= i32::MAX as usize {
        min(d_max, deg as i32)
    } else {
        d_max
    };
    binomial_of(d as usize, k as usize)
}

/// The number of `k`-stars once every degree is held to `d_max`. A negative
/// cap is refused before anything is counted.
pub fn num_k_stars_bounded(g: &Graph, k: i32, d_max: i32) -> (r: Result<u64, ReleaseError>)
    requires
        g.wf(),
    ensures
        d_max < 0 ==> r == Err::<u64, ReleaseError>(ReleaseError::NegativeDegreeCap),
        d_max >= 0 ==> match r {
            Ok(c) => c == capped_k_star_count(*g, k as int, d_max as int),
            Err(e) => e == ReleaseError::CountTooLarge && capped_k_star_count(
                *g,
                k as int,
                d_max as int,
            ) > u64::MAX,
        },
{
    if d_max < 0 {
        return Err(ReleaseError::NegativeDegreeCap);
    }
    let ghost s = g.vertices();
    let ghost f = capped_star_term(*g, k as int, d_max as int);
    let n = g.vertex_count();
    let mut total: u64 = 0;
    let mut at: usize = 0;
    while at < n
        invariant
            g.wf(),
            0 <= d_max,
            s == g.vertices(),
            f == capped_star_term(*g, k as int, d_max as int),
            n == s.len(),
            at <= n,
            total == sum_over(s.take(at as int), f),
        decreases n - at,
    {
        let v = g.vertex_at(at);
        let part = capped_stars_at(g, v, k, d_max);
        proof {
            lemma_sum_take_succ(s, f, at as int);
            lemma_sum_prefix_le(s, f, at + 1);
        }
        match accumulate(total, part) {
            Some(t) => {
                total = t;
            },
            None => {
                return Err(ReleaseError::CountTooLarge);
            },
        }
        at += 1;
    }
    assert(s.take(n as int) =~= s);
    Ok(total)
}

/// Holding the degrees to a cap never raises the star count.
pub proof fn lemma_capped_count_below(g: Graph, k: int, d_max: int)
    ensures
        capped_k_star_count(g, k, d_max) <= k_star_count(g, k),
{
    let f = capped_star_term(g, k, d_max);
    let h = star_term(g, k);
    assert forall|v: Vertex| g.vertices().contains(v) implies #[trigger] f(v) <= h(v) by {
        let d = g.neighbors(v).len() as int;
        lemma_binom_monotone(capped_degree(d, d_max), d, k);
    }
    lemma_sum_le(g.vertices(), f, h);
}

/// A cap that no degree exceeds leaves the star count as it is.
pub proof fn lemma_capped_count_same(g: Graph, k: int, d_max: int)
    requires
        forall|v: Vertex| g.has_vertex(v) ==> (#[trigger] g.neighbors(v)).len() <= d_max,
    ensures
        capped_k_star_count(g, k, d_max) == k_star_count(g, k),
{
    let f = capped_star_term(g, k, d_max);
    let h = star_term(g, k);
    assert forall|v: Vertex| g.vertices().contains(v) implies #[trigger] f(v) <= h(v) by {
        assert(g.neighbors(v).len() <= d_max);
    }
    assert forall|v: Vertex| g.vertices().contains(v) implies #[trigger] h(v) <= f(v) by {
        assert(g.neighbors(v).len() <= d_max);
    }
    lemma_sum_le(g.vertices(), f, h);
    lemma_sum_le(g.vertices(), h, f);
}

} // verus!
