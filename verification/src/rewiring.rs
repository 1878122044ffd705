//! Random rewiring of a lattice into a small-world graph.
//!
//! Chance comes from the `rand` crate through two small functions whose
//! contracts are taken on trust. Everything that is decided from a draw is
//! verified for every value the draw can have.

use rand::Rng;
use vstd::prelude::*;
use crate::graph::{
    add_edge,
    delete_edge,
    get_neighbors,
    lemma_with_elem,
    with_elem,
    Graph,
    GraphModel,
    Vertex,
};

verus! {

/// A number drawn evenly from `0..n`.
///
/// Trusted: calls `Rng::gen_range` of `rand` on the thread's generator with
/// the range `0..n`. That function refuses an empty range, which `requires`
/// leaves out, and hands back a member of the range. Nothing is claimed of
/// which member. A generator that the system gives no entropy to cannot
/// start; that failure lies outside this contract.
#[verifier::external_body]
fn random_below(n: i32) -> (r: i32)
    requires
        0 < n,
    ensures
        0 <= r < n,
{
    rand::thread_rng().gen_range(0..n)
}

/// A coin that comes up `true` with the chance `numerator / denominator`.
///
/// Trusted: calls `Rng::gen_ratio` of `rand` on the thread's generator. That
/// function refuses a zero denominator and a numerator above the
/// denominator, which `requires` leaves out. Its documentation promises
/// `false` for a zero numerator and `true` for a numerator equal to the
/// denominator, and that is all that is claimed here.
#[verifier::external_body]
fn random_ratio(numerator: u32, denominator: u32) -> (r: bool)
    requires
        0 < denominator,
        numerator <= denominator,
    ensures
        numerator == 0 ==> !r,
        numerator == denominator ==> r,
{
    rand::thread_rng().gen_ratio(numerator, denominator)
}

/// How many of `i` and `j` are numbers of `0..n`, counting a common value
/// once.
pub open spec fn barred(n: int, i: int, j: int) -> int {
    (if 0 <= i < n {
        1int
    } else {
        0int
    }) + (if 0 <= j < n && j != i {
        1int
    } else {
        0int
    })
}

/// The number of `0..n` that has `r` numbers other than `i` and `j` below
/// it, itself neither `i` nor `j`.
pub open spec fn nth_allowed(r: int, n: int, i: int, j: int) -> int {
    let lo = if i < j {
        i
    } else {
        j
    };
    let hi = if i < j {
        j
    } else {
        i
    };
    let a = if 0 <= lo < n && r >= lo {
        r + 1
    } else {
        r
    };
    if 0 <= hi < n && hi != lo && a >= hi {
        a + 1
    } else {
        a
    }
}

/// `nth_allowed` runs through the allowed numbers in ascending order, and
/// misses none: it pairs `0..n - barred` with the numbers of `0..n` other
/// than `i` and `j`.
pub proof fn lemma_nth_allowed(n: int, i: int, j: int)
    ensures
        forall|r: int|
            0 <= r < n - barred(n, i, j) ==> {
                let t = #[trigger] nth_allowed(r, n, i, j);
                0 <= t < n && t != i && t != j
            },
        forall|r: int, s: int|
            0 <= r < s ==> #[trigger] nth_allowed(r, n, i, j) < #[trigger] nth_allowed(s, n, i, j),
        forall|t: int|
            0 <= t < n && t != i && t != j ==> 0 <= t - #[trigger] barred(t, i, j) < n - barred(
                n,
                i,
                j,
            ) && nth_allowed(t - barred(t, i, j), n, i, j) == t,
{
}

/// Turns a draw from `0..n - barred` into a number of `0..n` other than
/// `i` and `j`.
pub fn place_target(r: i32, n: i32, i: Vertex, j: Vertex) -> (t: Vertex)
    requires
        0 <= r < n - barred(n as int, i as int, j as int),
    ensures
        t == nth_allowed(r as int, n as int, i as int, j as int),
        0 <= t < n,
        t != i,
        t != j,
{
    let lo = if i < j {
        i
    } else {
        j
    };
    let hi = if i < j {
        j
    } else {
        i
    };
    let a: i32 = if 0 <= lo && lo < n && r >= lo {
        r + 1
    } else {
        r
    };
    if 0 <= hi && hi < n && hi != lo && a >= hi {
        a + 1
    } else {
        a
    }
}

/// A number of `0..n` other than `i` and `j`, each as likely as any other;
/// `None` where there is no such number.
pub fn draw_target(n: i32, i: Vertex, j: Vertex) -> (r: Option<Vertex>)
    ensures
        match r {
            Some(t) => 0 <= t < n && t != i && t != j,
            None => n - barred(n as int, i as int, j as int) <= 0,
        },
{
    let first: i32 = if 0 <= i && i < n {
        1
    } else {
        0
    };
    let second: i32 = if 0 <= j && j < n && j != i {
        1
    } else {
        0
    };
    if n <= first + second {
        None
    } else {
        let r = random_below(n - (first + second));
        Some(place_target(r, n, i, j))
    }
}

/// The model with `i` parted from each entry of `gone` in turn.
pub open spec fn parted_from(m: GraphModel, i: Vertex, gone: Seq<Vertex>) -> GraphModel
    decreases gone.len(),
{
    if gone.len() == 0 {
        m
    } else {
        parted_from(m, i, gone.drop_last()).without_edge(i, gone.last())
    }
}

/// The model with `i` joined to each entry of `come` in turn.
pub open spec fn joined_to(m: GraphModel, i: Vertex, come: Seq<Vertex>) -> GraphModel
    decreases come.len(),
{
    if come.len() == 0 {
        m
    } else {
        joined_to(m, i, come.drop_last()).with_edge(i, come.last())
    }
}

/// The model with the edges from `i` to `gone` taken out and then the edges
/// from `i` to `come` put in.
pub open spec fn rewired(m: GraphModel, i: Vertex, gone: Seq<Vertex>, come: Seq<Vertex>) -> GraphModel {
    joined_to(parted_from(m, i, gone), i, come)
}

/// Rewiring takes no vertex away.
pub proof fn lemma_rewired_keeps_vertices(
    m: GraphModel,
    i: Vertex,
    gone: Seq<Vertex>,
    come: Seq<Vertex>,
    w: Vertex,
)
    requires
        m.vertices.contains(w),
    ensures
        parted_from(m, i, gone).vertices.contains(w),
        rewired(m, i, gone, come).vertices.contains(w),
    decreases come.len(), gone.len(),
{
    if come.len() > 0 {
        lemma_rewired_keeps_vertices(m, i, gone, come.drop_last(), w);
        let prev = joined_to(parted_from(m, i, gone), i, come.drop_last());
        lemma_with_elem(prev.vertices, i);
        lemma_with_elem(with_elem(prev.vertices, i), come.last());
    } else if gone.len() > 0 {
        lemma_rewired_keeps_vertices(m, i, gone.drop_last(), come, w);
        let prev = parted_from(m, i, gone.drop_last());
        lemma_with_elem(prev.vertices, i);
        lemma_with_elem(with_elem(prev.vertices, i), gone.last());
    }
}

/// Takes out the edges from `i` to `gone`, then puts in the edges from `i`
/// to `come`.
pub fn apply_rewiring(g: &mut Graph, i: Vertex, gone: &Vec<Vertex>, come: &Vec<Vertex>)
    requires
        old(g).wf(),
    ensures
        final(g).wf(),
        final(g)@ == rewired(old(g)@, i, gone@, come@),
{
    let ghost start = g@;
    let mut at: usize = 0;
    while at < gone.len()
        invariant
            at <= gone@.len(),
            g.wf(),
            g@ == parted_from(start, i, gone@.take(at as int)),
        decreases gone@.len() - at,
    {
        delete_edge(g, (i, gone[at]));
        proof {
            assert(gone@.take(at + 1).drop_last() =~= gone@.take(at as int));
        }
        at += 1;
    }
    assert(gone@.take(gone@.len() as int) =~= gone@);
    let ghost mid = g@;
    let mut at: usize = 0;
    while at < come.len()
        invariant
            at <= come@.len(),
            g.wf(),
            g@ == joined_to(mid, i, come@.take(at as int)),
        decreases come@.len() - at,
    {
        add_edge(g, (i, come[at]));
        proof {
            assert(come@.take(at + 1).drop_last() =~= come@.take(at as int));
        }
        at += 1;
    }
    assert(come@.take(come@.len() as int) =~= come@);
}

/// What every rewiring of `i` looks like: each edge taken out went to a
/// neighbour of `i`, and for each there is one put in, to a number of
/// `0..n` other than `i` and the neighbour.
pub open spec fn rewiring_of(
    before: GraphModel,
    after: GraphModel,
    i: Vertex,
    n: int,
    gone: Seq<Vertex>,
    come: Seq<Vertex>,
) -> bool {
    &&& gone.len() == come.len()
    &&& forall|t: int| 0 <= t < gone.len() ==> before.adjacency[i].contains(#[trigger] gone[t])
    &&& forall|t: int|
        0 <= t < come.len() ==> 0 <= #[trigger] come[t] < n && come[t] != i && come[t] != gone[t]
    &&& after == rewired(before.with_vertex(i), i, gone, come)
}

/// For every neighbour of `i` there is a number of `0..n` other than the
/// two.
pub open spec fn every_edge_can_move(m: GraphModel, i: Vertex, n: int) -> bool {
    forall|t: int|
        0 <= t < m.adjacency[i].len() ==> n - barred(n, i as int, (#[trigger] m.adjacency[i][t]) as int)
            > 0
}

/// Moves each edge at `i`, with the chance `numerator / denominator`, to
/// another end drawn evenly from the numbers of `0..n` other than `i` and
/// the old end. An edge for which there is no such number stays. With a
/// chance of 0 no edge moves, and with a chance of 1 every edge that can
/// move does.
pub fn rewire_vertex(g: &mut Graph, i: Vertex, n: i32, numerator: u32, denominator: u32)
    requires
        old(g).wf(),
        0 < denominator,
        numerator <= denominator,
    ensures
        final(g).wf(),
        exists|gone: Seq<Vertex>, come: Seq<Vertex>|
            rewiring_of(old(g)@, final(g)@, i, n as int, gone, come),
        numerator == 0 ==> final(g)@ == old(g)@.with_vertex(i),
        numerator == denominator && every_edge_can_move(old(g)@, i, n as int) ==> exists|
            come: Seq<Vertex>,
        | rewiring_of(old(g)@, final(g)@, i, n as int, old(g)@.adjacency[i], come),
        forall|w: Vertex| old(g).has_vertex(w) ==> #[trigger] final(g).has_vertex(w),
{
    let ghost start = g@;
    let neighbors = get_neighbors(g, i);
    let mut gone: Vec<Vertex> = Vec::new();
    let mut come: Vec<Vertex> = Vec::new();
    let mut at: usize = 0;
    while at < neighbors.len()
        invariant
            at <= neighbors@.len(),
            neighbors@ == start.adjacency[i],
            0 < denominator,
            numerator <= denominator,
            gone@.len() == come@.len(),
            numerator == 0 ==> gone@.len() == 0,
            numerator == denominator && every_edge_can_move(start, i, n as int) ==> gone@
                == neighbors@.take(at as int),
            forall|t: int| 0 <= t < gone@.len() ==> start.adjacency[i].contains(#[trigger] gone@[t]),
            forall|t: int|
                0 <= t < come@.len() ==> 0 <= #[trigger] come@[t] < n && come@[t] != i && come@[t]
                    != gone@[t],
        decreases neighbors@.len() - at,
    {
        let j = neighbors[at];
        proof {
            assert(neighbors@.take(at + 1) =~= neighbors@.take(at as int).push(j));
            assert(start.adjacency[i].contains(j));
        }
        if random_ratio(numerator, denominator) {
            match draw_target(n, i, j) {
                Some(target) => {
                    gone.push(j);
                    come.push(target);
                },
                None => {},
            }
        }
        at += 1;
    }
    assert(neighbors@.take(neighbors@.len() as int) =~= neighbors@);
    apply_rewiring(g, i, &gone, &come);
    assert(rewiring_of(start, g@, i, n as int, gone@, come@));
    proof {
        lemma_with_elem(start.vertices, i);
        assert forall|w: Vertex| start.vertices.contains(w) implies #[trigger] g.has_vertex(w) by {
            lemma_rewired_keeps_vertices(start.with_vertex(i), i, gone@, come@, w);
        }
    }
}

/// `after` is some rewiring of `i` in `before`; where the chance is 1 and
/// every edge at `i` can move, one that moves them all.
pub open spec fn some_rewiring(
    before: GraphModel,
    after: GraphModel,
    i: Vertex,
    n: int,
    certain: bool,
) -> bool {
    &&& exists|gone: Seq<Vertex>, come: Seq<Vertex>| rewiring_of(before, after, i, n, gone, come)
    &&& certain && every_edge_can_move(before, i, n) ==> exists|come: Seq<Vertex>|
        rewiring_of(before, after, i, n, before.adjacency[i], come)
}

/// `steps` begins with one model and goes on, vertex by vertex of `0..n`,
/// each time with some rewiring of that vertex.
pub open spec fn rewired_in_turn(steps: Seq<GraphModel>, n: int, certain: bool) -> bool {
    &&& steps.len() == n + 1
    &&& forall|t: int|
        0 <= t < n ==> #[trigger] some_rewiring(steps[t], steps[t + 1], t as Vertex, n, certain)
}

/// Rewires every vertex of `0..n` in turn, where `n` is the number of
/// vertices at the start. Whatever is drawn, the graph stays valid and
/// keeps its vertices, and it is reached by rewiring one vertex after the
/// other; with a chance of 0 no edge moves.
pub fn rewire(g: &mut Graph, numerator: u32, denominator: u32)
    requires
        old(g).wf(),
        old(g).vertices().len() <= i32::MAX,
        0 < denominator,
        numerator <= denominator,
    ensures
        final(g).wf(),
        forall|w: Vertex| old(g).has_vertex(w) ==> #[trigger] final(g).has_vertex(w),
        numerator == 0 ==> final(g)@.adjacency == old(g)@.adjacency,
        exists|steps: Seq<GraphModel>|
            rewired_in_turn(steps, old(g).vertices().len() as int, numerator == denominator)
                && steps.first() == old(g)@ && steps.last() == final(g)@,
{
    let ghost start = *g;
    let ghost certain = numerator == denominator;
    let ghost mut steps: Seq<GraphModel> = seq![g@];
    let n: i32 = g.vertex_count() as i32;
    let mut i: i32 = 0;
    while i < n
        invariant
            g.wf(),
            0 <= i <= n,
            0 < denominator,
            numerator <= denominator,
            certain == (numerator == denominator),
            forall|w: Vertex| start.has_vertex(w) ==> #[trigger] g.has_vertex(w),
            numerator == 0 ==> g@.adjacency == start@.adjacency,
            steps.len() == i + 1,
            steps.first() == start@,
            steps.last() == g@,
            forall|t: int|
                0 <= t < i ==> #[trigger] some_rewiring(
                    steps[t],
                    steps[t + 1],
                    t as Vertex,
                    n as int,
                    certain,
                ),
        decreases n - i,
    {
        let ghost before = g@;
        let ghost earlier = steps;
        rewire_vertex(g, i, n, numerator, denominator);
        proof {
            steps = steps.push(g@);
            assert(some_rewiring(before, g@, i, n as int, certain));
            assert forall|t: int| 0 <= t < i + 1 implies #[trigger] some_rewiring(
                steps[t],
                steps[t + 1],
                t as Vertex,
                n as int,
                certain,
            ) by {
                if t < i {
                    assert(steps[t] == earlier[t] && steps[t + 1] == earlier[t + 1]);
                    assert(some_rewiring(
                        earlier[t],
                        earlier[t + 1],
                        t as Vertex,
                        n as int,
                        certain,
                    ));
                } else {
                    assert(steps[t] == before && steps[t + 1] == g@);
                }
            }
        }
        i += 1;
    }
    assert(rewired_in_turn(steps, n as int, certain));
}

} // verus!
