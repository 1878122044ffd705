//! The ring lattice that small-world graphs start from.

use vstd::prelude::*;
use crate::graph::{add_edge, Graph, GraphModel, Vertex};

verus! {

/// The model after the ring edges of the vertices below `i`, and of `i`
/// itself up to the offset `j`, have been added in order: vertex `a` is
/// joined to `(a + 1) % n`, ..., `(a + k) % n`.
pub open spec fn ring_partial(m: GraphModel, n: int, k: int, i: int, j: int) -> GraphModel
    decreases i, j,
{
    if j > 0 {
        ring_partial(m, n, k, i, j - 1).with_edge(i as Vertex, ((i + j) % n) as Vertex)
    } else if i > 0 {
        ring_partial(
            m,
            n,
            k,
            i - 1,
            if k > 0 {
                k
            } else {
                0
            },
        )
    } else {
        m
    }
}

/// The model with every vertex of `0..n` joined to the `k` that follow it
/// on the ring.
pub open spec fn ring(m: GraphModel, n: int, k: int) -> GraphModel {
    ring_partial(m, n, k, n, 0)
}

/// Joins each of the numbers below the number of vertices to the `k`
/// numbers that follow it, counting round.
pub fn make_regular(g: &mut Graph, k: i32)
    requires
        old(g).wf(),
        old(g).vertices().len() <= i32::MAX,
    ensures
        final(g).wf(),
        final(g)@ == ring(old(g)@, old(g).vertices().len() as int, k as int),
{
    let ghost start = g@;
    let n: i32 = g.vertex_count() as i32;
    let mut i: i32 = 0;
    while i < n
        invariant
            0 <= i <= n,
            g.wf(),
            g@ == ring_partial(start, n as int, k as int, i as int, 0),
        decreases n - i,
    {
        let mut j: i32 = 0;
        while j < k
            invariant
                0 <= i < n,
                0 <= j,
                j <= k || j == 0,
                g.wf(),
                g@ == ring_partial(start, n as int, k as int, i as int, j as int),
            decreases k - j,
        {
            j += 1;
            let t: i64 = (i as i64 + j as i64) % (n as i64);
            add_edge(g, (i, t as i32));
        }
        assert(g@ == ring_partial(start, n as int, k as int, i + 1, 0));
        i += 1;
    }
}

} // verus!
