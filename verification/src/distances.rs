//! Distances from one vertex to all others, by breadth-first search.

use vstd::prelude::*;
use crate::graph::{Graph, Vertex};

verus! {

/// The vertices at positions `a` and `b` of the vertex list are joined.
pub open spec fn joined_at(g: Graph, a: int, b: int) -> bool {
    g.has_edge(g.vertices()[a], g.vertices()[b])
}

/// The table has an entry for every vertex, and the entry 0 for the
/// source and for nothing else.
pub open spec fn anchored(g: Graph, s: Vertex, t: Seq<Option<u64>>) -> bool {
    &&& t.len() == g.vertices().len()
    &&& forall|a: int| 0 <= a < t.len() ==> ((#[trigger] t[a]) == Some(0u64) <==> g.vertices()[a] == s)
}

/// The vertex at `b` has a neighbour whose entry is one less than its own.
pub open spec fn has_step(g: Graph, t: Seq<Option<u64>>, b: int) -> bool {
    exists|a: int|
        0 <= a < t.len() && #[trigger] joined_at(g, a, b) && t[a] == Some((t[b]->Some_0 - 1) as u64)
}

/// Every vertex with a positive entry has a neighbour whose entry is one
/// less.
pub open spec fn stepped(g: Graph, t: Seq<Option<u64>>) -> bool {
    forall|b: int|
        0 <= b < t.len() && t[b] is Some && t[b]->Some_0 > 0 ==> #[trigger] has_step(g, t, b)
}

/// `b` is in the list.
pub open spec fn holds(list: Seq<usize>, b: int) -> bool {
    exists|k: int| 0 <= k < list.len() && #[trigger] list[k] as int == b
}

/// No entry is above `m`.
pub open spec fn bounded(t: Seq<Option<u64>>, m: int) -> bool {
    forall|b: int| 0 <= b < t.len() && (#[trigger] t[b]) is Some ==> t[b]->Some_0 <= m
}

/// Every neighbour of a vertex with an entry below `level` has an entry,
/// at most one more.
pub open spec fn closed_below(g: Graph, t: Seq<Option<u64>>, level: int) -> bool {
    forall|a: int, b: int|
        0 <= a < t.len() && 0 <= b < t.len() && #[trigger] joined_at(g, a, b) && t[a] is Some
            && t[a]->Some_0 < level ==> t[b] is Some && t[b]->Some_0 <= t[a]->Some_0 + 1
}

/// `list` holds the positions whose entry is `m`, all of them and nothing
/// else.
pub open spec fn listed(t: Seq<Option<u64>>, list: Seq<usize>, m: int) -> bool {
    &&& forall|k: int|
        0 <= k < list.len() ==> (#[trigger] list[k]) < t.len() && t[list[k] as int] == Some(m as u64)
    &&& forall|b: int| 0 <= b < t.len() && (#[trigger] t[b]) == Some(m as u64) ==> holds(list, b)
}

/// What was entered stays.
pub open spec fn kept(old_t: Seq<Option<u64>>, t: Seq<Option<u64>>, m: int) -> bool {
    &&& t.len() == old_t.len()
    &&& forall|b: int| 0 <= b < t.len() && (#[trigger] old_t[b]) is Some ==> t[b] == old_t[b]
    &&& forall|b: int|
        0 <= b < t.len() && (#[trigger] old_t[b]) is None && t[b] is Some ==> t[b] == Some(m as u64)
}

/// The number of vertices without an entry.
pub open spec fn nones(t: Seq<Option<u64>>) -> nat
    decreases t.len(),
{
    if t.len() == 0 {
        0
    } else {
        nones(t.drop_last()) + if t.last() is None {
            1nat
        } else {
            0nat
        }
    }
}

/// `t` is the table of distances from `s`: one entry for each vertex, in
/// the order of the vertex list. The source alone has distance 0; a vertex
/// at a positive distance has a neighbour one step nearer; and the
/// neighbours of a vertex with a distance have one too, at most one step
/// further. A vertex that cannot be reached has no entry.
pub open spec fn is_distance_table(g: Graph, s: Vertex, t: Seq<Option<u64>>) -> bool {
    &&& anchored(g, s, t)
    &&& stepped(g, t)
    &&& forall|a: int, b: int|
        0 <= a < t.len() && 0 <= b < t.len() && #[trigger] joined_at(g, a, b) && t[a] is Some
            ==> t[b] is Some && t[b]->Some_0 <= t[a]->Some_0 + 1
}

proof fn lemma_nones_update(t: Seq<Option<u64>>, b: int, x: u64)
    requires
        0 <= b < t.len(),
        t[b] is None,
    ensures
        nones(t.update(b, Some(x))) + 1 == nones(t),
    decreases t.len(),
{
    let u = t.update(b, Some(x));
    if b == t.len() - 1 {
        assert(u.drop_last() =~= t.drop_last());
    } else {
        lemma_nones_update(t.drop_last(), b, x);
        assert(u.drop_last() =~= t.drop_last().update(b, Some(x)));
    }
}

/// Gives every neighbour of the vertex at `a` that has no entry the entry
/// `level + 1`, and lists it in `next`.
#[verifier::loop_isolation(false)]
fn visit(
    g: &Graph,
    s: Vertex,
    a: usize,
    level: u64,
    dist: &mut Vec<Option<u64>>,
    next: &mut Vec<usize>,
)
    requires
        g.wf(),
        level < u64::MAX,
        a < old(dist)@.len(),
        old(dist)@[a as int] == Some(level),
        anchored(*g, s, old(dist)@),
        stepped(*g, old(dist)@),
        bounded(old(dist)@, level + 1),
        closed_below(*g, old(dist)@, level as int),
        listed(old(dist)@, old(next)@, level + 1),
    ensures
        anchored(*g, s, final(dist)@),
        stepped(*g, final(dist)@),
        bounded(final(dist)@, level + 1),
        closed_below(*g, final(dist)@, level as int),
        listed(final(dist)@, final(next)@, level + 1),
        kept(old(dist)@, final(dist)@, level + 1),
        forall|b: int|
            0 <= b < final(dist)@.len() && #[trigger] joined_at(*g, a as int, b)
                ==> final(dist)@[b] is Some,
        nones(final(dist)@) + final(next)@.len() == nones(old(dist)@) + old(next)@.len(),
{
    let ghost start = dist@;
    let ghost start_next = next@;
    let u = g.vertex_at(a);
    match g.try_neighbors(u) {
        None => {},
        Some(row) => {
            let mut ri: usize = 0;
            while ri < row.len()
                invariant
                    ri <= row@.len(),
                    row@ == g.neighbors(u),
                    dist@[a as int] == Some(level),
                    anchored(*g, s, dist@),
                    stepped(*g, dist@),
                    bounded(dist@, level + 1),
                    closed_below(*g, dist@, level as int),
                    listed(dist@, next@, level + 1),
                    kept(start, dist@, level + 1),
                    forall|k: int, b: int|
                        0 <= k < ri && 0 <= b < dist@.len() && g.vertices()[b] == #[trigger] row@[k]
                            ==> (#[trigger] dist@[b]) is Some,
                    nones(dist@) + next@.len() == nones(start) + start_next.len(),
                decreases row@.len() - ri,
            {
                let v = row[ri];
                assert(g.neighbors(u).contains(v));
                match g.position_of(v) {
                    Some(b) => {
                        if dist[b].is_none() {
                            let ghost before = dist@;
                            let ghost before_next = next@;
                            dist.set(b, Some(level + 1));
                            next.push(b);
                            proof {
                                lemma_nones_update(before, b as int, (level + 1) as u64);
                                assert(joined_at(*g, a as int, b as int));
                                assert forall|c: int|
                                    0 <= c < dist@.len() && dist@[c] is Some && dist@[c]->Some_0
                                        > 0 implies #[trigger] has_step(*g, dist@, c) by {
                                    if c == b {
                                        assert(joined_at(*g, a as int, c) && dist@[a as int] == Some(
                                            (dist@[c]->Some_0 - 1) as u64,
                                        ));
                                    } else {
                                        assert(before[c] is Some);
                                        assert(has_step(*g, before, c));
                                        let e = choose|e: int|
                                            0 <= e < before.len() && #[trigger] joined_at(*g, e, c)
                                                && before[e] == Some((before[c]->Some_0 - 1) as u64);
                                        assert(dist@[e] == before[e]);
                                        assert(joined_at(*g, e, c));
                                    }
                                }
                                assert forall|c: int|
                                    0 <= c < dist@.len() && (#[trigger] dist@[c]) == Some(
                                        (level + 1) as u64,
                                    ) implies holds(next@, c) by {
                                    if c == b {
                                        assert(next@[before_next.len() as int] as int == c);
                                    } else {
                                        assert(before[c] == Some((level + 1) as u64));
                                        assert(holds(before_next, c));
                                        let k = choose|k: int|
                                            0 <= k < before_next.len() && #[trigger] before_next[k] as int
                                                == c;
                                        assert(next@[k] as int == c);
                                    }
                                }
                                assert forall|k: int| 0 <= k < next@.len() implies (#[trigger] next@[k])
                                    < dist@.len() && dist@[next@[k] as int] == Some(
                                    (level + 1) as u64,
                                ) by {
                                    if k < before_next.len() {
                                        assert(next@[k] == before_next[k]);
                                    }
                                }
                            }
                        }
                    },
                    None => {},
                }
                ri += 1;
            }
            assert forall|b: int|
                0 <= b < dist@.len() && #[trigger] joined_at(*g, a as int, b) implies dist@[b] is Some by {
                let w = g.vertices()[b];
                let k = choose|k: int| 0 <= k < row@.len() && row@[k] == w;
                assert(g.vertices()[b] == row@[k]);
            }
        },
    }
}

/// The neighbours of the first `done` vertices of the frontier all have an
/// entry.
pub open spec fn served(g: Graph, t: Seq<Option<u64>>, frontier: Seq<usize>, done: int) -> bool {
    forall|k: int, b: int|
        0 <= k < done && 0 <= b < t.len() && #[trigger] joined_at(g, frontier[k] as int, b)
            ==> t[b] is Some
}

proof fn lemma_frontier_kept(
    g: Graph,
    before: Seq<Option<u64>>,
    after: Seq<Option<u64>>,
    frontier: Seq<usize>,
    level: int,
    done: int,
)
    requires
        0 <= level < u64::MAX,
        listed(before, frontier, level),
        kept(before, after, level + 1),
        served(g, before, frontier, done),
    ensures
        listed(after, frontier, level),
        served(g, after, frontier, done),
{
    assert forall|b: int|
        0 <= b < after.len() && (#[trigger] after[b]) == Some(level as u64) implies holds(
        frontier,
        b,
    ) by {
        if before[b] is None {
            assert(after[b] == Some((level + 1) as u64));
        }
        assert(before[b] == Some(level as u64));
    }
    assert forall|k: int| 0 <= k < frontier.len() implies (#[trigger] frontier[k]) < after.len()
        && after[frontier[k] as int] == Some(level as u64) by {
        assert(before[frontier[k] as int] == Some(level as u64));
    }
    assert forall|k: int, b: int|
        0 <= k < done && 0 <= b < after.len() && #[trigger] joined_at(
            g,
            frontier[k] as int,
            b,
        ) implies after[b] is Some by {
        assert(before[b] is Some);
    }
}

proof fn lemma_closed_next(g: Graph, t: Seq<Option<u64>>, frontier: Seq<usize>, level: int)
    requires
        0 <= level < u64::MAX,
        closed_below(g, t, level),
        bounded(t, level + 1),
        listed(t, frontier, level),
        served(g, t, frontier, frontier.len() as int),
    ensures
        closed_below(g, t, level + 1),
{
    assert forall|a: int, b: int|
        0 <= a < t.len() && 0 <= b < t.len() && #[trigger] joined_at(g, a, b) && t[a] is Some
            && t[a]->Some_0 < level + 1 implies t[b] is Some && t[b]->Some_0 <= t[a]->Some_0
        + 1 by {
        if t[a]->Some_0 == level {
            assert(t[a] == Some(level as u64));
            assert(holds(frontier, a));
            let k = choose|k: int| 0 <= k < frontier.len() && #[trigger] frontier[k] as int == a;
            assert(joined_at(g, frontier[k] as int, b));
        }
    }
}

/// Visits every vertex of the frontier and hands back the next one.
fn sweep(g: &Graph, s: Vertex, level: u64, frontier: &Vec<usize>, dist: &mut Vec<Option<u64>>) -> (next:
    Vec<usize>)
    requires
        g.wf(),
        level < u64::MAX,
        anchored(*g, s, old(dist)@),
        stepped(*g, old(dist)@),
        bounded(old(dist)@, level as int),
        closed_below(*g, old(dist)@, level as int),
        listed(old(dist)@, frontier@, level as int),
    ensures
        anchored(*g, s, final(dist)@),
        stepped(*g, final(dist)@),
        bounded(final(dist)@, level + 1),
        closed_below(*g, final(dist)@, level + 1),
        listed(final(dist)@, next@, level + 1),
        nones(final(dist)@) + next@.len() == nones(old(dist)@),
{
    let mut next: Vec<usize> = Vec::new();
    let ghost start = dist@;
    let mut fi: usize = 0;
    while fi < frontier.len()
        invariant
            g.wf(),
            level < u64::MAX,
            fi <= frontier@.len(),
            anchored(*g, s, dist@),
            stepped(*g, dist@),
            bounded(dist@, level + 1),
            closed_below(*g, dist@, level as int),
            listed(dist@, next@, level + 1),
            listed(dist@, frontier@, level as int),
            served(*g, dist@, frontier@, fi as int),
            nones(dist@) + next@.len() == nones(start),
        decreases frontier@.len() - fi,
    {
        let a = frontier[fi];
        let ghost before = dist@;
        visit(g, s, a, level, dist, &mut next);
        proof {
            lemma_frontier_kept(*g, before, dist@, frontier@, level as int, fi as int);
        }
        fi += 1;
    }
    proof {
        lemma_closed_next(*g, dist@, frontier@, level as int);
    }
    next
}

/// The distance from `s` to every vertex, in the order of the vertex list;
/// `None` for a vertex that cannot be reached from `s`.
#[verifier::loop_isolation(false)]
pub fn distances_from(g: &Graph, s: Vertex) -> (dist: Vec<Option<u64>>)
    requires
        g.wf(),
    ensures
        is_distance_table(*g, s, dist@),
{
    let n = g.vertex_count();
    let mut dist: Vec<Option<u64>> = Vec::new();
    let mut i: usize = 0;
    while i < n
        invariant
            i <= n,
            dist@.len() == i,
            nones(dist@) == i,
            forall|k: int| 0 <= k < i ==> (#[trigger] dist@[k]) is None,
        decreases n - i,
    {
        let ghost before = dist@;
        dist.push(None);
        assert(dist@.drop_last() =~= before);
        i += 1;
    }
    match g.position_of(s) {
        None => {
            assert forall|a: int| 0 <= a < dist@.len() implies g.vertices()[a] != s by {
                assert(g.vertices().contains(g.vertices()[a]));
            }
        },
        Some(p) => {
            let ghost blank = dist@;
            dist.set(p, Some(0));
            let mut frontier: Vec<usize> = Vec::new();
            frontier.push(p);
            let mut level: u64 = 0;
            proof {
                lemma_nones_update(blank, p as int, 0);
                assert(frontier@[0] == p);
                assert forall|b: int|
                    0 <= b < dist@.len() && (#[trigger] dist@[b]) == Some(0u64) implies holds(
                    frontier@,
                    b,
                ) by {
                    assert(frontier@[0] as int == b);
                }
            }
            while frontier.len() > 0
                invariant
                    dist@.len() == n,
                    anchored(*g, s, dist@),
                    stepped(*g, dist@),
                    bounded(dist@, level as int),
                    closed_below(*g, dist@, level as int),
                    listed(dist@, frontier@, level as int),
                    level + nones(dist@) + (if frontier@.len() > 0 {
                        1int
                    } else {
                        0int
                    }) <= n,
                decreases nones(dist@) + (if frontier@.len() > 0 {
                    1int
                } else {
                    0int
                }),
            {
                let next = sweep(g, s, level, &frontier, &mut dist);
                frontier = next;
                level += 1;
            }
            assert forall|a: int, b: int|
                0 <= a < dist@.len() && 0 <= b < dist@.len() && #[trigger] joined_at(*g, a, b)
                    && dist@[a] is Some implies dist@[b] is Some && dist@[b]->Some_0
                <= dist@[a]->Some_0 + 1 by {
                if dist@[a]->Some_0 == level {
                    assert(dist@[a] == Some(level));
                    assert(holds(frontier@, a));
                }
            }
        },
    }
    dist
}

/// There is a walk of `d` steps from `s` to the vertex at position `b`.
pub open spec fn walk(g: Graph, s: Vertex, b: int, d: nat) -> bool
    decreases d,
{
    &&& 0 <= b < g.vertices().len()
    &&& if d == 0 {
        g.vertices()[b] == s
    } else {
        exists|a: int|
            0 <= a < g.vertices().len() && #[trigger] joined_at(g, a, b) && walk(
                g,
                s,
                a,
                (d - 1) as nat,
            )
    }
}

/// No walk from the source is shorter than the table says: a vertex that
/// a walk of `d` steps reaches has an entry, and it is at most `d`.
pub proof fn lemma_no_shorter_walk(g: Graph, s: Vertex, t: Seq<Option<u64>>, b: int, d: nat)
    requires
        is_distance_table(g, s, t),
        walk(g, s, b, d),
    ensures
        t[b] is Some,
        t[b]->Some_0 <= d,
    decreases d,
{
    if d > 0 {
        let a = choose|a: int|
            0 <= a < g.vertices().len() && #[trigger] joined_at(g, a, b) && walk(
                g,
                s,
                a,
                (d - 1) as nat,
            );
        lemma_no_shorter_walk(g, s, t, a, (d - 1) as nat);
        assert(joined_at(g, a, b));
    }
}

/// Every entry of the table is the length of a walk from the source.
pub proof fn lemma_walk_of_that_length(g: Graph, s: Vertex, t: Seq<Option<u64>>, b: int)
    requires
        is_distance_table(g, s, t),
        0 <= b < t.len(),
        t[b] is Some,
    ensures
        walk(g, s, b, t[b]->Some_0 as nat),
    decreases t[b]->Some_0,
{
    let y = t[b]->Some_0;
    if y > 0 {
        assert(has_step(g, t, b));
        let a = choose|a: int|
            0 <= a < t.len() && #[trigger] joined_at(g, a, b) && t[a] == Some((y - 1) as u64);
        lemma_walk_of_that_length(g, s, t, a);
        assert(joined_at(g, a, b) && walk(g, s, a, (y - 1) as nat));
    } else {
        assert(t[b] == Some(0u64));
    }
}

} // verus!
