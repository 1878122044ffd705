//! The graph store: a vertex list and, for each vertex, its list of neighbours.

use vstd::prelude::*;

verus! {

pub type Vertex = i32;

pub type Edge = (Vertex, Vertex);

/// An undirected graph. Vertices are kept in the order in which they were
/// first mentioned, and so are the neighbours of each vertex.
pub struct Graph {
    verts: Vec<Vertex>,
    rows: Vec<Vec<Vertex>>,
}

/// What a graph holds: its vertices in the order in which they came, and
/// for every number the list of its neighbours, empty for a number that is
/// no vertex.
pub struct GraphModel {
    pub vertices: Seq<Vertex>,
    pub adjacency: Map<Vertex, Seq<Vertex>>,
}

impl GraphModel {
    /// The model with `v` made a vertex.
    pub open spec fn with_vertex(self, v: Vertex) -> GraphModel {
        GraphModel { vertices: with_elem(self.vertices, v), adjacency: self.adjacency }
    }

    /// The model with `u` and `v` made vertices and joined.
    pub open spec fn with_edge(self, u: Vertex, v: Vertex) -> GraphModel {
        GraphModel {
            vertices: with_elem(with_elem(self.vertices, u), v),
            adjacency: Map::total(
                |w: Vertex|
                    if w == u {
                        with_elem(self.adjacency[u], v)
                    } else if w == v {
                        with_elem(self.adjacency[v], u)
                    } else {
                        self.adjacency[w]
                    },
            ),
        }
    }

    /// The model with `u` and `v` made vertices and parted.
    pub open spec fn without_edge(self, u: Vertex, v: Vertex) -> GraphModel {
        GraphModel {
            vertices: with_elem(with_elem(self.vertices, u), v),
            adjacency: Map::total(
                |w: Vertex|
                    if w == u {
                        without_elem(self.adjacency[u], v)
                    } else if w == v {
                        without_elem(self.adjacency[v], u)
                    } else {
                        self.adjacency[w]
                    },
            ),
        }
    }
}

impl View for Graph {
    type V = GraphModel;

    open spec fn view(&self) -> GraphModel {
        GraphModel {
            vertices: self.vertices(),
            adjacency: Map::total(|w: Vertex| self.neighbors(w)),
        }
    }
}

/// `s`, with `x` appended unless it already occurs.
pub open spec fn with_elem(s: Seq<Vertex>, x: Vertex) -> Seq<Vertex> {
    if s.contains(x) {
        s
    } else {
        s.push(x)
    }
}

/// `s`, with the occurrence of `x` taken out.
pub open spec fn without_elem(s: Seq<Vertex>, x: Vertex) -> Seq<Vertex> {
    if s.contains(x) {
        s.remove(s.index_of(x))
    } else {
        s
    }
}

/// What `with_elem` holds, and that it keeps a list free of repetitions.
pub proof fn lemma_with_elem(s: Seq<Vertex>, x: Vertex)
    ensures
        forall|y: Vertex| #[trigger] with_elem(s, x).contains(y) <==> (s.contains(y) || y == x),
        s.no_duplicates() ==> with_elem(s, x).no_duplicates(),
{
    let t = with_elem(s, x);
    assert forall|y: Vertex| #[trigger] t.contains(y) <==> (s.contains(y) || y == x) by {
        if s.contains(x) {
        } else {
            if s.contains(y) {
                let i = choose|i: int| 0 <= i < s.len() && s[i] == y;
                assert(t[i] == y);
            }
            if y == x {
                assert(t[s.len() as int] == x);
            }
        }
    }
}

/// What `without_elem` holds when `s` has no repetitions, and that it keeps
/// the list free of them.
pub proof fn lemma_without_elem(s: Seq<Vertex>, x: Vertex)
    requires
        s.no_duplicates(),
    ensures
        forall|y: Vertex| #[trigger] without_elem(s, x).contains(y) <==> (s.contains(y) && y != x),
        without_elem(s, x).no_duplicates(),
{
    let t = without_elem(s, x);
    if s.contains(x) {
        let p = s.index_of(x);
        assert(0 <= p < s.len() && s[p] == x);
        assert forall|y: Vertex| #[trigger] t.contains(y) <==> (s.contains(y) && y != x) by {
            if t.contains(y) {
                let i = choose|i: int| 0 <= i < t.len() && t[i] == y;
                if i < p {
                    assert(s[i] == y);
                } else {
                    assert(s[i + 1] == y);
                }
            }
            if s.contains(y) && y != x {
                let i = choose|i: int| 0 <= i < s.len() && s[i] == y;
                if i < p {
                    assert(t[i] == y);
                } else {
                    assert(t[i - 1] == y);
                }
            }
        }
    }
}

/// The position of `x` in `row`, if it occurs there.
fn position(row: &Vec<Vertex>, x: Vertex) -> (r: Option<usize>)
    ensures
        match r {
            Some(i) => i < row@.len() && row@[i as int] == x,
            None => !row@.contains(x),
        },
{
    let mut i: usize = 0;
    while i < row.len()
        invariant
            i <= row@.len(),
            forall|j: int| 0 <= j < i ==> row@[j] != x,
        decreases row@.len() - i,
    {
        if row[i] == x {
            return Some(i);
        }
        i += 1;
    }
    None
}

/// A fresh vector with the elements of `row`.
fn copy_of(row: &Vec<Vertex>) -> (r: Vec<Vertex>)
    ensures
        r@ == row@,
{
    let mut out: Vec<Vertex> = Vec::new();
    let mut i: usize = 0;
    while i < row.len()
        invariant
            i <= row@.len(),
            out@ == row@.take(i as int),
        decreases row@.len() - i,
    {
        out.push(row[i]);
        i += 1;
        assert(out@ =~= row@.take(i as int));
    }
    assert(row@.take(row@.len() as int) =~= row@);
    out
}

impl Graph {
    /// The vertices, in the order in which they were added.
    pub closed spec fn vertices(&self) -> Seq<Vertex> {
        self.verts@
    }

    /// The neighbours of `v`, in the order in which they were added; empty
    /// for a vertex that the graph does not hold.
    pub closed spec fn neighbors(&self, v: Vertex) -> Seq<Vertex> {
        if self.verts@.contains(v) && self.verts@.index_of(v) < self.rows@.len() {
            self.rows@[self.verts@.index_of(v)]@
        } else {
            Seq::empty()
        }
    }

    /// The two lists run in parallel and nothing occurs twice in either.
    pub closed spec fn rep_ok(&self) -> bool {
        &&& self.verts@.len() == self.rows@.len()
        &&& self.verts@.no_duplicates()
        &&& forall|i: int| 0 <= i < self.rows@.len() ==> (#[trigger] self.rows@[i])@.no_duplicates()
    }

    pub open spec fn has_vertex(&self, v: Vertex) -> bool {
        self.vertices().contains(v)
    }

    pub open spec fn has_edge(&self, u: Vertex, v: Vertex) -> bool {
        self.neighbors(u).contains(v)
    }

    /// Validity: no vertex and no neighbour is listed twice, every neighbour
    /// is itself a vertex, and adjacency is symmetric.
    pub open spec fn wf(&self) -> bool {
        &&& self.rep_ok()
        &&& self.vertices().no_duplicates()
        &&& forall|w: Vertex| (#[trigger] self.neighbors(w)).no_duplicates()
        &&& forall|w: Vertex| !self.has_vertex(w) ==> (#[trigger] self.neighbors(w)).len() == 0
        &&& forall|w: Vertex, x: Vertex| #[trigger]
            self.neighbors(w).contains(x) ==> self.vertices().contains(x)
        &&& forall|w: Vertex, x: Vertex| #[trigger]
            self.neighbors(w).contains(x) ==> self.neighbors(x).contains(w)
    }

    /// Two graphs with the same vertices and the same adjacency.
    pub open spec fn same_as(&self, other: &Graph) -> bool {
        &&& self.vertices() == other.vertices()
        &&& forall|w: Vertex| #[trigger] self.neighbors(w) == other.neighbors(w)
    }

    proof fn lemma_row(&self, i: int)
        requires
            self.rep_ok(),
            0 <= i < self.verts@.len(),
        ensures
            self.neighbors(self.verts@[i]) == self.rows@[i]@,
            self.verts@.index_of(self.verts@[i]) == i,
    {
        let v = self.verts@[i];
        assert(self.verts@.contains(v));
        let j = self.verts@.index_of(v);
        assert(0 <= j < self.verts@.len() && self.verts@[j] == v);
    }

    proof fn lemma_rep_facts(&self)
        requires
            self.rep_ok(),
        ensures
            self.vertices().no_duplicates(),
            forall|w: Vertex| (#[trigger] self.neighbors(w)).no_duplicates(),
            forall|w: Vertex| !self.has_vertex(w) ==> (#[trigger] self.neighbors(w)).len() == 0,
    {
        assert forall|w: Vertex| (#[trigger] self.neighbors(w)).no_duplicates() by {
            if self.verts@.contains(w) {
                let j = self.verts@.index_of(w);
                assert(0 <= j < self.verts@.len() && self.verts@[j] == w);
                assert(self.rows@[j]@.no_duplicates());
            }
        }
    }

    /// The graph with no vertices.
    pub fn new() -> (g: Graph)
        ensures
            g.wf(),
            g.vertices() == Seq::<Vertex>::empty(),
            forall|w: Vertex| (#[trigger] g.neighbors(w)) == Seq::<Vertex>::empty(),
    {
        let g = Graph { verts: Vec::new(), rows: Vec::new() };
        proof {
            g.lemma_rep_facts();
            assert forall|w: Vertex| (#[trigger] g.neighbors(w)) == Seq::<Vertex>::empty() by {
                assert(!g.verts@.contains(w));
            }
        }
        g
    }

    /// The number of vertices.
    pub fn vertex_count(&self) -> (n: usize)
        ensures
            n == self.vertices().len(),
    {
        self.verts.len()
    }

    /// The vertex at position `i` of the vertex list.
    pub fn vertex_at(&self, i: usize) -> (v: Vertex)
        requires
            i < self.vertices().len(),
        ensures
            v == self.vertices()[i as int],
    {
        self.verts[i]
    }

    /// Where `v` stands in the vertex list, if it is a vertex.
    pub fn position_of(&self, v: Vertex) -> (r: Option<usize>)
        ensures
            match r {
                Some(i) => i < self.vertices().len() && self.vertices()[i as int] == v,
                None => !self.has_vertex(v),
            },
    {
        position(&self.verts, v)
    }

    /// The neighbour list of `v`, without changing the graph: `None` for a
    /// vertex that the graph does not hold.
    pub fn try_neighbors(&self, v: Vertex) -> (r: Option<&Vec<Vertex>>)
        requires
            self.wf(),
        ensures
            match r {
                Some(row) => self.has_vertex(v) && row@ == self.neighbors(v),
                None => !self.has_vertex(v) && self.neighbors(v) == Seq::<Vertex>::empty(),
            },
    {
        match position(&self.verts, v) {
            Some(i) => {
                proof {
                    self.lemma_row(i as int);
                }
                Some(&self.rows[i])
            },
            None => None,
        }
    }

    /// The number of neighbours of `v`; 0 for a vertex that the graph does
    /// not hold.
    pub fn degree(&self, v: Vertex) -> (d: usize)
        requires
            self.wf(),
        ensures
            d == self.neighbors(v).len(),
    {
        match self.try_neighbors(v) {
            Some(row) => row.len(),
            None => 0,
        }
    }
}

/// Appends `x` to row `i` unless the row holds it.
fn insert_arc(g: &mut Graph, i: usize, x: Vertex)
    requires
        old(g).rep_ok(),
        i < old(g).vertices().len(),
    ensures
        final(g).rep_ok(),
        final(g).vertices() == old(g).vertices(),
        final(g).neighbors(old(g).vertices()[i as int]) == with_elem(
            old(g).neighbors(old(g).vertices()[i as int]),
            x,
        ),
        forall|w: Vertex|
            w != old(g).vertices()[i as int] ==> #[trigger] final(g).neighbors(w) == old(
                g,
            ).neighbors(w),
{
    let ghost before = *g;
    if position(&g.rows[i], x).is_none() {
        let mut row = copy_of(&g.rows[i]);
        row.push(x);
        g.rows.set(i, row);
        proof {
            lemma_with_elem(before.rows@[i as int]@, x);
            assert(g.rep_ok()) by {
                assert forall|j: int| 0 <= j < g.rows@.len() implies (#[trigger] g.rows@[j])@.no_duplicates() by {
                    if j != i {
                        assert(g.rows@[j] == before.rows@[j]);
                    }
                }
            }
        }
    }
    proof {
        before.lemma_row(i as int);
        g.lemma_row(i as int);
        assert forall|w: Vertex| w != before.verts@[i as int] implies #[trigger] g.neighbors(w)
            == before.neighbors(w) by {
            if before.verts@.contains(w) {
                let j = before.verts@.index_of(w);
                assert(0 <= j < before.verts@.len() && before.verts@[j] == w);
                assert(g.rows@[j] == before.rows@[j]);
            }
        }
    }
}

/// Takes `x` out of row `i` if the row holds it.
fn remove_arc(g: &mut Graph, i: usize, x: Vertex)
    requires
        old(g).rep_ok(),
        i < old(g).vertices().len(),
    ensures
        final(g).rep_ok(),
        final(g).vertices() == old(g).vertices(),
        final(g).neighbors(old(g).vertices()[i as int]) == without_elem(
            old(g).neighbors(old(g).vertices()[i as int]),
            x,
        ),
        forall|w: Vertex|
            w != old(g).vertices()[i as int] ==> #[trigger] final(g).neighbors(w) == old(
                g,
            ).neighbors(w),
{
    let ghost before = *g;
    match position(&g.rows[i], x) {
        Some(p) => {
            let mut row = copy_of(&g.rows[i]);
            row.remove(p);
            g.rows.set(i, row);
            proof {
                let s = before.rows@[i as int]@;
                assert(s.no_duplicates());
                assert(s.contains(x));
                let q = s.index_of(x);
                assert(0 <= q < s.len() && s[q] == x);
                assert(q == p);
                lemma_without_elem(s, x);
                assert(g.rep_ok()) by {
                    assert forall|j: int| 0 <= j < g.rows@.len() implies (#[trigger] g.rows@[j])@.no_duplicates() by {
                        if j != i {
                            assert(g.rows@[j] == before.rows@[j]);
                        }
                    }
                }
            }
        },
        None => {},
    }
    proof {
        before.lemma_row(i as int);
        g.lemma_row(i as int);
        assert forall|w: Vertex| w != before.verts@[i as int] implies #[trigger] g.neighbors(w)
            == before.neighbors(w) by {
            if before.verts@.contains(w) {
                let j = before.verts@.index_of(w);
                assert(0 <= j < before.verts@.len() && before.verts@[j] == w);
                assert(g.rows@[j] == before.rows@[j]);
            }
        }
    }
}

/// Makes `v` a vertex, with no neighbours, unless it is one already, and
/// tells where it stands in the vertex list.
fn ensure_vertex(g: &mut Graph, v: Vertex) -> (i: usize)
    requires
        old(g).rep_ok(),
    ensures
        final(g).rep_ok(),
        final(g).vertices() == with_elem(old(g).vertices(), v),
        forall|w: Vertex| #[trigger] final(g).neighbors(w) == old(g).neighbors(w),
        i < final(g).vertices().len(),
        final(g).vertices()[i as int] == v,
{
    let ghost before = *g;
    match position(&g.verts, v) {
        Some(i) => i,
        None => {
            let i = g.verts.len();
            g.verts.push(v);
            g.rows.push(Vec::new());
            proof {
                lemma_with_elem(before.verts@, v);
                assert(g.rep_ok()) by {
                    assert forall|j: int| 0 <= j < g.rows@.len() implies (#[trigger] g.rows@[j])@.no_duplicates() by {
                        if j < before.rows@.len() {
                            assert(g.rows@[j] == before.rows@[j]);
                        }
                    }
                }
                assert forall|w: Vertex| #[trigger] g.neighbors(w) == before.neighbors(w) by {
                    if before.verts@.contains(w) {
                        let j = before.verts@.index_of(w);
                        assert(0 <= j < before.verts@.len() && before.verts@[j] == w);
                        assert(g.verts@[j] == w);
                        g.lemma_row(j);
                        assert(g.rows@[j] == before.rows@[j]);
                    } else if w == v {
                        g.lemma_row(i as int);
                        assert(g.rows@[i as int]@ =~= Seq::<Vertex>::empty());
                    } else {
                        assert(!g.verts@.contains(w));
                    }
                }
            }
            i
        },
    }
}

/// Makes `v` a vertex, with no neighbours, unless it is one already.
pub fn add_vertex(g: &mut Graph, v: Vertex)
    requires
        old(g).wf(),
    ensures
        final(g).wf(),
        final(g).vertices() == with_elem(old(g).vertices(), v),
        forall|w: Vertex| #[trigger] final(g).neighbors(w) == old(g).neighbors(w),
        final(g)@ == old(g)@.with_vertex(v),
{
    let ghost before = *g;
    let _ = ensure_vertex(g, v);
    proof {
        lemma_with_elem(before.vertices(), v);
        g.lemma_rep_facts();
        assert(g@.adjacency =~= before@.adjacency);
    }
}

/// Whether `v` is a neighbour of `u`. A `u` that the graph does not hold
/// has no neighbours.
pub fn edge_exists(g: &Graph, u: Vertex, v: Vertex) -> (r: bool)
    requires
        g.wf(),
    ensures
        r == g.has_edge(u, v),
{
    match g.try_neighbors(u) {
        Some(row) => position(row, v).is_some(),
        None => false,
    }
}

/// The neighbours of each vertex once the edge between `u` and `v` is in.
pub open spec fn neighbors_with_edge(g: Graph, u: Vertex, v: Vertex, w: Vertex) -> Seq<Vertex> {
    if w == u {
        with_elem(g.neighbors(u), v)
    } else if w == v {
        with_elem(g.neighbors(v), u)
    } else {
        g.neighbors(w)
    }
}

/// The neighbours of each vertex once the edge between `u` and `v` is out.
pub open spec fn neighbors_without_edge(g: Graph, u: Vertex, v: Vertex, w: Vertex) -> Seq<
    Vertex,
> {
    if w == u {
        without_elem(g.neighbors(u), v)
    } else if w == v {
        without_elem(g.neighbors(v), u)
    } else {
        g.neighbors(w)
    }
}

/// `after` is `before` with both ends made vertices and joined.
pub open spec fn edge_added(before: Graph, after: Graph, u: Vertex, v: Vertex) -> bool {
    &&& after.vertices() == with_elem(with_elem(before.vertices(), u), v)
    &&& forall|w: Vertex| #[trigger]
        after.neighbors(w) == neighbors_with_edge(before, u, v, w)
}

/// `after` is `before` with both ends made vertices and parted.
pub open spec fn edge_deleted(before: Graph, after: Graph, u: Vertex, v: Vertex) -> bool {
    &&& after.vertices() == with_elem(with_elem(before.vertices(), u), v)
    &&& forall|w: Vertex| #[trigger]
        after.neighbors(w) == neighbors_without_edge(before, u, v, w)
}

/// The two ways of saying what adding and deleting an edge do agree.
pub proof fn lemma_edge_views(before: Graph, after: Graph, u: Vertex, v: Vertex)
    ensures
        edge_added(before, after, u, v) <==> after@ == before@.with_edge(u, v),
        edge_deleted(before, after, u, v) <==> after@ == before@.without_edge(u, v),
{
    if edge_added(before, after, u, v) {
        assert(after@.adjacency =~= before@.with_edge(u, v).adjacency);
    }
    if after@ == before@.with_edge(u, v) {
        assert forall|w: Vertex| #[trigger]
            after.neighbors(w) == neighbors_with_edge(before, u, v, w) by {
            assert(after@.adjacency[w] == before@.with_edge(u, v).adjacency[w]);
        }
    }
    if edge_deleted(before, after, u, v) {
        assert(after@.adjacency =~= before@.without_edge(u, v).adjacency);
    }
    if after@ == before@.without_edge(u, v) {
        assert forall|w: Vertex| #[trigger]
            after.neighbors(w) == neighbors_without_edge(before, u, v, w) by {
            assert(after@.adjacency[w] == before@.without_edge(u, v).adjacency[w]);
        }
    }
}

/// Makes both ends vertices and joins them: each becomes a neighbour of the
/// other unless it is one already.
pub fn add_edge(g: &mut Graph, e: Edge)
    requires
        old(g).wf(),
    ensures
        final(g).wf(),
        edge_added(*old(g), *final(g), e.0, e.1),
        final(g)@ == old(g)@.with_edge(e.0, e.1),
{
    let ghost before = *g;
    let (u, v) = e;
    let _ = ensure_vertex(g, u);
    let j = ensure_vertex(g, v);
    let ghost mid = *g;
    proof {
        lemma_with_elem(before.vertices(), u);
        lemma_with_elem(with_elem(before.vertices(), u), v);
        assert(mid.vertices().contains(u));
    }
    let i = ensure_vertex(g, u);
    assert(g.vertices() == mid.vertices());
    insert_arc(g, i, v);
    let ghost half = *g;
    insert_arc(g, j, u);
    proof {
        lemma_with_elem(before.neighbors(u), v);
        lemma_with_elem(before.neighbors(v), u);
        lemma_with_elem(half.neighbors(v), u);
        g.lemma_rep_facts();
        assert forall|w: Vertex| #[trigger]
            g.neighbors(w) == neighbors_with_edge(before, u, v, w) by {
            if w == v {
            } else if w == u {
                assert(g.neighbors(w) == half.neighbors(w));
            } else {
                assert(g.neighbors(w) == half.neighbors(w));
            }
        }
        assert forall|w: Vertex, x: Vertex| #[trigger]
            g.neighbors(w).contains(x) implies g.vertices().contains(x) && g.neighbors(x).contains(w) by {
            assert(g.neighbors(w) == neighbors_with_edge(before, u, v, w));
            assert(g.neighbors(x) == neighbors_with_edge(before, u, v, x));
            if before.neighbors(w).contains(x) {
                assert(before.vertices().contains(x));
                assert(before.neighbors(x).contains(w));
            }
        }
        lemma_edge_views(before, *g, u, v);
    }
}

/// Makes both ends vertices and parts them: neither is a neighbour of the
/// other afterwards.
pub fn delete_edge(g: &mut Graph, e: Edge)
    requires
        old(g).wf(),
    ensures
        final(g).wf(),
        edge_deleted(*old(g), *final(g), e.0, e.1),
        final(g)@ == old(g)@.without_edge(e.0, e.1),
{
    let ghost before = *g;
    let (u, v) = e;
    let _ = ensure_vertex(g, u);
    let j = ensure_vertex(g, v);
    let ghost mid = *g;
    proof {
        lemma_with_elem(before.vertices(), u);
        lemma_with_elem(with_elem(before.vertices(), u), v);
        assert(mid.vertices().contains(u));
    }
    let i = ensure_vertex(g, u);
    assert(g.vertices() == mid.vertices());
    remove_arc(g, i, v);
    let ghost half = *g;
    remove_arc(g, j, u);
    proof {
        lemma_without_elem(before.neighbors(u), v);
        lemma_without_elem(before.neighbors(v), u);
        lemma_without_elem(half.neighbors(v), u);
        g.lemma_rep_facts();
        assert forall|w: Vertex| #[trigger]
            g.neighbors(w) == neighbors_without_edge(before, u, v, w) by {
            if w == v {
                if u == v {
                    assert(without_elem(without_elem(before.neighbors(u), u), u)
                        == without_elem(before.neighbors(u), u));
                }
            } else {
                assert(g.neighbors(w) == half.neighbors(w));
            }
        }
        assert forall|w: Vertex, x: Vertex| #[trigger]
            g.neighbors(w).contains(x) implies g.vertices().contains(x) && g.neighbors(x).contains(w) by {
            assert(g.neighbors(w) == neighbors_without_edge(before, u, v, w));
            assert(g.neighbors(x) == neighbors_without_edge(before, u, v, x));
            assert(before.neighbors(w).contains(x));
            assert(before.vertices().contains(x));
            assert(before.neighbors(x).contains(w));
        }
        lemma_edge_views(before, *g, u, v);
    }
}

/// The neighbours of `v`, which becomes a vertex if it was none.
pub fn get_neighbors(g: &mut Graph, v: Vertex) -> (r: Vec<Vertex>)
    requires
        old(g).wf(),
    ensures
        final(g).wf(),
        final(g).vertices() == with_elem(old(g).vertices(), v),
        forall|w: Vertex| #[trigger] final(g).neighbors(w) == old(g).neighbors(w),
        final(g)@ == old(g)@.with_vertex(v),
        r@ == old(g).neighbors(v),
{
    add_vertex(g, v);
    match g.try_neighbors(v) {
        Some(row) => copy_of(row),
        None => Vec::new(),
    }
}

/// Adjacency is symmetric: `v` is a neighbour of `u` exactly when `u` is a
/// neighbour of `v`.
pub proof fn lemma_adjacency_symmetric(g: Graph, u: Vertex, v: Vertex)
    requires
        g.wf(),
    ensures
        g.has_edge(u, v) == g.has_edge(v, u),
{
}

/// Adding a vertex that is there changes nothing, so adding it twice is
/// adding it once.
pub proof fn lemma_add_vertex_idempotent(a: Graph, v: Vertex)
    ensures
        with_elem(with_elem(a.vertices(), v), v) == with_elem(a.vertices(), v),
{
    lemma_with_elem(a.vertices(), v);
}

/// Adding an edge twice gives the graph that adding it once gives.
pub proof fn lemma_add_edge_idempotent(a: Graph, b: Graph, c: Graph, u: Vertex, v: Vertex)
    requires
        a.wf(),
        edge_added(a, b, u, v),
        edge_added(b, c, u, v),
    ensures
        c.same_as(&b),
{
    lemma_with_elem(a.vertices(), u);
    lemma_with_elem(with_elem(a.vertices(), u), v);
    lemma_with_elem(a.neighbors(u), v);
    lemma_with_elem(a.neighbors(v), u);
    assert forall|w: Vertex| #[trigger] c.neighbors(w) == b.neighbors(w) by {
        assert(c.neighbors(w) == neighbors_with_edge(b, u, v, w));
        assert(b.neighbors(u) == neighbors_with_edge(a, u, v, u));
        assert(b.neighbors(v) == neighbors_with_edge(a, u, v, v));
    }
}

/// Deleting an edge twice gives the graph that deleting it once gives.
pub proof fn lemma_delete_edge_idempotent(a: Graph, b: Graph, c: Graph, u: Vertex, v: Vertex)
    requires
        a.wf(),
        edge_deleted(a, b, u, v),
        edge_deleted(b, c, u, v),
    ensures
        c.same_as(&b),
{
    lemma_with_elem(a.vertices(), u);
    lemma_with_elem(with_elem(a.vertices(), u), v);
    lemma_without_elem(a.neighbors(u), v);
    lemma_without_elem(a.neighbors(v), u);
    assert forall|w: Vertex| #[trigger] c.neighbors(w) == b.neighbors(w) by {
        assert(c.neighbors(w) == neighbors_without_edge(b, u, v, w));
        assert(b.neighbors(u) == neighbors_without_edge(a, u, v, u));
        assert(b.neighbors(v) == neighbors_without_edge(a, u, v, v));
    }
}

/// After an edge is added each end is a neighbour of the other, and after
/// it is deleted neither is.
pub proof fn lemma_edge_presence(a: Graph, b: Graph, u: Vertex, v: Vertex)
    requires
        a.wf(),
    ensures
        edge_added(a, b, u, v) ==> b.has_edge(u, v) && b.has_edge(v, u),
        edge_deleted(a, b, u, v) ==> !b.has_edge(u, v) && !b.has_edge(v, u),
{
    lemma_with_elem(a.neighbors(u), v);
    lemma_with_elem(a.neighbors(v), u);
    lemma_without_elem(a.neighbors(u), v);
    lemma_without_elem(a.neighbors(v), u);
    if edge_added(a, b, u, v) {
        assert(b.neighbors(u) == neighbors_with_edge(a, u, v, u));
        assert(b.neighbors(v) == neighbors_with_edge(a, u, v, v));
    }
    if edge_deleted(a, b, u, v) {
        assert(b.neighbors(u) == neighbors_without_edge(a, u, v, u));
        assert(b.neighbors(v) == neighbors_without_edge(a, u, v, v));
    }
}

} // verus!
