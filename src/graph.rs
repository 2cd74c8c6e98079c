//! Graphs over `usize` vertex ids: the `GraphTrait` interface that the codecs
//! read and fill, and two adjacency implementations.
use vstd::prelude::*;
use crate::sorted::{
    ids_sorted, pairs_sorted, pair_lt, ids_contain, ids_insert, ids_remove, pairs_contain,
    pairs_insert, pairs_remove, pairs_without_vertex, copy_pairs, lemma_push_contains,
};

verus! {

pub type VertexID = usize;

pub type EdgeID = (VertexID, VertexID);

/// What a graph holds: its vertices and its stored edges, both in ascending order.
pub struct GraphView {
    pub vertices: Seq<usize>,
    pub edges: Seq<(usize, usize)>,
}

impl GraphView {
    /// Both lists strictly ascending, and every edge between two vertices of the graph.
    pub open spec fn wf(self) -> bool {
        &&& ids_sorted(self.vertices)
        &&& pairs_sorted(self.edges)
        &&& forall|p: (usize, usize)| #[trigger] self.edges.contains(p) ==> self.vertices.contains(p.0) && self.vertices.contains(p.1)
    }

    pub open spec fn adjacent(self, v: usize, u: usize) -> bool {
        self.edges.contains((v, u)) || self.edges.contains((u, v))
    }
}

/// The interface of a graph: vertex and edge queries and mutation.
pub trait GraphTrait: Sized {
    spec fn model(&self) -> GraphView;

    /// The pair under which the graph stores the edge `e`.
    spec fn edge_key(e: EdgeID) -> EdgeID;

    /// The pair under which the graph stores the edge `e`.
    fn edge_key_of(e: EdgeID) -> (r: EdgeID)
        ensures
            r == Self::edge_key(e),
    ;

    /// Every stored edge is stored under its own key.
    fn edges_are_keys(&self)
        requires
            self.model().wf(),
        ensures
            forall|q: EdgeID| #[trigger] self.model().edges.contains(q) ==> Self::edge_key(q) == q,
    ;

    /// An empty graph.
    fn new() -> (g: Self)
        ensures
            g.model().wf(),
            g.model().vertices.len() == 0,
            g.model().edges.len() == 0,
    ;

    /// Number of vertices.
    fn vertex_count(&self) -> (n: usize)
        requires
            self.model().wf(),
        ensures
            n == self.model().vertices.len(),
    ;

    /// Number of edges.
    fn edge_count(&self) -> (n: usize)
        requires
            self.model().wf(),
        ensures
            n == self.model().edges.len(),
    ;

    /// The vertices in ascending order.
    fn vertices(&self) -> (r: Vec<VertexID>)
        requires
            self.model().wf(),
        ensures
            r@ == self.model().vertices,
    ;

    /// The stored edges in ascending order.
    fn edges(&self) -> (r: Vec<EdgeID>)
        requires
            self.model().wf(),
        ensures
            r@ == self.model().edges,
    ;

    /// Whether the graph contains the vertex.
    fn contains(&self, v: VertexID) -> (r: bool)
        requires
            self.model().wf(),
        ensures
            r == self.model().vertices.contains(v),
    ;

    /// Whether the graph contains the edge.
    fn has_edge(&self, e: EdgeID) -> (r: bool)
        requires
            self.model().wf(),
        ensures
            r == self.model().edges.contains(Self::edge_key(e)),
    ;

    /// The vertices joined to `v` by an edge in either direction, ascending;
    /// `None` when `v` is not in the graph.
    fn neighbors(&self, v: VertexID) -> (r: Option<Vec<VertexID>>)
        requires
            self.model().wf(),
        ensures
            r is None <==> !self.model().vertices.contains(v),
            r matches Some(s) ==> ids_sorted(s@) && forall|u: usize|
                s@.contains(u) <==> self.model().adjacent(v, u),
    ;

    /// Adds a vertex if it is not already in the graph.
    fn add_vertex(&mut self, v: VertexID)
        requires
            old(self).model().wf(),
        ensures
            final(self).model().wf(),
            forall|u: usize| #[trigger] final(self).model().vertices.contains(u) <==> (old(self).model().vertices.contains(u) || u == v),
            final(self).model().edges == old(self).model().edges,
    ;

    /// Adds an edge, and its end vertices where they are missing.
    fn add_edge(&mut self, e: EdgeID)
        requires
            old(self).model().wf(),
        ensures
            final(self).model().wf(),
            forall|u: usize| #[trigger] final(self).model().vertices.contains(u) <==> (old(self).model().vertices.contains(u) || u == e.0 || u == e.1),
            forall|p: EdgeID| #[trigger] final(self).model().edges.contains(p) <==> (old(self).model().edges.contains(p) || p == Self::edge_key(e)),
    ;

    /// Creates a vertex one above the largest id (0 in an empty graph) and returns its id.
    fn create_vertex(&mut self) -> (v: VertexID)
        requires
            old(self).model().wf(),
            old(self).model().vertices.len() == 0 || old(self).model().vertices.last() < usize::MAX,
        ensures
            final(self).model().wf(),
            v == (if old(self).model().vertices.len() == 0 { 0 } else { old(self).model().vertices.last() + 1 }),
            !old(self).model().vertices.contains(v),
            forall|u: usize| #[trigger] final(self).model().vertices.contains(u) <==> (old(self).model().vertices.contains(u) || u == v),
            final(self).model().edges == old(self).model().edges,
    ;

    /// Removes an edge; its vertices stay.
    fn delete_edge(&mut self, e: EdgeID)
        requires
            old(self).model().wf(),
        ensures
            final(self).model().wf(),
            final(self).model().vertices == old(self).model().vertices,
            forall|p: EdgeID| #[trigger] final(self).model().edges.contains(p) <==> (old(self).model().edges.contains(p) && p != Self::edge_key(e)),
    ;

    /// Removes a vertex and every edge that touches it.
    fn delete_vertex(&mut self, v: VertexID)
        requires
            old(self).model().wf(),
        ensures
            final(self).model().wf(),
            forall|u: usize| #[trigger] final(self).model().vertices.contains(u) <==> (old(self).model().vertices.contains(u) && u != v),
            forall|p: EdgeID| #[trigger] final(self).model().edges.contains(p) <==> (old(self).model().edges.contains(p) && p.0 != v && p.1 != v),
    ;
}

/// Marks graphs whose edges have no direction: `(a, b)` and `(b, a)` are one edge.
pub trait SimpleGraph: GraphTrait {
}

/// Graphs whose edges are arcs from a source to a target.
pub trait DiGraph: GraphTrait {
    /// Vertices with an arc into `v`, ascending; `None` when `v` is not in the graph.
    fn in_neighbors(&self, v: VertexID) -> (r: Option<Vec<VertexID>>)
        requires
            self.model().wf(),
        ensures
            r is None <==> !self.model().vertices.contains(v),
            r matches Some(s) ==> ids_sorted(s@) && forall|u: usize| s@.contains(u) <==> self.model().edges.contains((u, v)),
    ;

    /// Vertices with an arc from `v`, ascending; `None` when `v` is not in the graph.
    fn out_neighbors(&self, v: VertexID) -> (r: Option<Vec<VertexID>>)
        requires
            self.model().wf(),
        ensures
            r is None <==> !self.model().vertices.contains(v),
            r matches Some(s) ==> ids_sorted(s@) && forall|u: usize| s@.contains(u) <==> self.model().edges.contains((v, u)),
    ;
}

/// Two strictly ascending sequences with the same elements are equal.
pub proof fn lemma_sorted_ids_unique(a: Seq<usize>, b: Seq<usize>)
    requires
        ids_sorted(a),
        ids_sorted(b),
        forall|u: usize| a.contains(u) <==> b.contains(u),
    ensures
        a == b,
    decreases a.len(),
{
    if a.len() == 0 {
        if b.len() > 0 {
            assert(b.contains(b[0]));
        }
    } else {
        assert(a.contains(a.last()));
        assert(b.len() > 0);
        assert(b.contains(b.last()));
        let ka = choose|k: int| 0 <= k < a.len() && a[k] == b.last();
        let kb = choose|k: int| 0 <= k < b.len() && b[k] == a.last();
        if ka < a.len() - 1 {
            assert(a[ka] < a.last());
        }
        if kb < b.len() - 1 {
            assert(b[kb] < b.last());
        }
        assert(a.last() == b.last());
        let a1 = a.drop_last();
        let b1 = b.drop_last();
        assert forall|u: usize| a1.contains(u) <==> b1.contains(u) by {
            if a1.contains(u) {
                let k = choose|k: int| 0 <= k < a1.len() && a1[k] == u;
                assert(a[k] < a.last());
                assert(b.contains(u));
                let j = choose|j: int| 0 <= j < b.len() && b[j] == u;
                assert(j != b.len() - 1);
                assert(b1[j] == u);
            }
            if b1.contains(u) {
                let k = choose|k: int| 0 <= k < b1.len() && b1[k] == u;
                assert(b[k] < b.last());
                assert(a.contains(u));
                let j = choose|j: int| 0 <= j < a.len() && a[j] == u;
                assert(j != a.len() - 1);
                assert(a1[j] == u);
            }
        }
        lemma_sorted_ids_unique(a1, b1);
        assert(a == a1.push(a.last()));
        assert(b == b1.push(b.last()));
    }
}

/// Adds `v`, then an edge from `v` to each of `nbhrs`, in order.
pub fn add_neighbors<G: GraphTrait>(g: &mut G, v: VertexID, nbhrs: &Vec<VertexID>)
    requires
        old(g).model().wf(),
    ensures
        final(g).model().wf(),
        forall|u: usize| #[trigger] final(g).model().vertices.contains(u) <==> (old(g).model().vertices.contains(u) || u == v || nbhrs@.contains(u)),
        forall|p: EdgeID| #[trigger] final(g).model().edges.contains(p) <==> (old(g).model().edges.contains(p) || exists|k: int| 0 <= k < nbhrs@.len() && p == G::edge_key((v, #[trigger] nbhrs@[k]))),
{
    g.add_vertex(v);
    let mut i: usize = 0;
    while i < nbhrs.len()
        invariant
            g.model().wf(),
            i <= nbhrs@.len(),
            forall|u: usize| #[trigger] g.model().vertices.contains(u) <==> (old(g).model().vertices.contains(u) || u == v || nbhrs@.subrange(0, i as int).contains(u)),
            forall|p: EdgeID| #[trigger] g.model().edges.contains(p) <==> (old(g).model().edges.contains(p) || exists|k: int| 0 <= k < i && p == G::edge_key((v, #[trigger] nbhrs@[k]))),
        decreases nbhrs@.len() - i,
    {
        let u = nbhrs[i];
        assert(nbhrs@.subrange(0, i + 1) == nbhrs@.subrange(0, i as int).push(u));
        proof { lemma_push_contains(nbhrs@.subrange(0, i as int), u); }
        let ghost before = g.model().edges;
        g.add_edge((v, u));
        assert forall|p: EdgeID| #[trigger] g.model().edges.contains(p) <==> (old(g).model().edges.contains(p) || exists|k: int| 0 <= k < i + 1 && p == G::edge_key((v, #[trigger] nbhrs@[k]))) by {
            if p == G::edge_key((v, u)) {
                assert(p == G::edge_key((v, nbhrs@[i as int])));
            }
            if exists|k: int| 0 <= k < i + 1 && p == G::edge_key((v, #[trigger] nbhrs@[k])) {
                let k = choose|k: int| 0 <= k < i + 1 && p == G::edge_key((v, #[trigger] nbhrs@[k]));
                if k < i {
                    assert(before.contains(p));
                }
            }
        }
        i = i + 1;
    }
    assert(nbhrs@.subrange(0, nbhrs@.len() as int) == nbhrs@);
}

/// The vertices `u` such that `edges` holds `(v, u)` (when `outgoing`) or `(u, v)` (when `incoming`).
pub fn collect_neighbors(edges: &Vec<EdgeID>, v: VertexID, outgoing: bool, incoming: bool) -> (r: Vec<VertexID>)
    ensures
        ids_sorted(r@),
        forall|u: usize| r@.contains(u) <==> ((outgoing && edges@.contains((v, u))) || (incoming && edges@.contains((u, v)))),
{
    let mut r: Vec<VertexID> = Vec::new();
    let mut i: usize = 0;
    while i < edges.len()
        invariant
            ids_sorted(r@),
            i <= edges@.len(),
            forall|u: usize| r@.contains(u) <==> ((outgoing && edges@.subrange(0, i as int).contains((v, u))) || (incoming && edges@.subrange(0, i as int).contains((u, v)))),
        decreases edges@.len() - i,
    {
        let p = edges[i];
        assert(edges@.subrange(0, i + 1) == edges@.subrange(0, i as int).push(p));
        proof { lemma_push_contains(edges@.subrange(0, i as int), p); }
        if outgoing && p.0 == v {
            ids_insert(&mut r, p.1);
        }
        if incoming && p.1 == v {
            ids_insert(&mut r, p.0);
        }
        i = i + 1;
    }
    assert(edges@.subrange(0, edges@.len() as int) == edges@);
    r
}

/// One statement of a topology-only format: a vertex, or an edge with its two ends.
#[derive(Clone, Copy, Debug)]
pub enum GraphItem {
    Vertex(VertexID),
    Edge(VertexID, VertexID),
}

/// Whether the item names the vertex `u`, alone or as an end of an edge.
pub open spec fn item_touches(it: GraphItem, u: usize) -> bool {
    match it {
        GraphItem::Vertex(v) => v == u,
        GraphItem::Edge(a, b) => a == u || b == u,
    }
}

/// Whether the item is an edge that a graph of type `G` stores as `p`.
pub open spec fn item_stores<G: GraphTrait>(it: GraphItem, p: EdgeID) -> bool {
    match it {
        GraphItem::Vertex(_) => false,
        GraphItem::Edge(a, b) => p == G::edge_key((a, b)),
    }
}

/// The graph holds exactly the vertices and edges that the items name.
pub open spec fn holds_items<G: GraphTrait>(m: GraphView, items: Seq<GraphItem>) -> bool {
    &&& m.wf()
    &&& forall|u: usize| #[trigger] m.vertices.contains(u) <==> exists|k: int| 0 <= k < items.len() && item_touches(#[trigger] items[k], u)
    &&& forall|p: EdgeID| #[trigger] m.edges.contains(p) <==> exists|k: int| 0 <= k < items.len() && item_stores::<G>(#[trigger] items[k], p)
}

/// Builds a graph from its statements, in order.
pub fn build_graph<G: GraphTrait>(items: &Vec<GraphItem>) -> (g: G)
    ensures
        holds_items::<G>(g.model(), items@),
{
    let mut g = G::new();
    let mut i: usize = 0;
    while i < items.len()
        invariant
            i <= items@.len(),
            holds_items::<G>(g.model(), items@.take(i as int)),
        decreases items@.len() - i,
    {
        let it = items[i];
        let ghost before = g.model();
        let ghost pre = items@.take(i as int);
        assert(items@.take(i + 1) == pre.push(it));
        match it {
            GraphItem::Vertex(v) => {
                g.add_vertex(v);
            },
            GraphItem::Edge(a, b) => {
                g.add_edge((a, b));
            },
        }
        let ghost post = items@.take(i + 1);
        assert forall|u: usize| #[trigger] g.model().vertices.contains(u) <==> exists|k: int| 0 <= k < post.len() && item_touches(#[trigger] post[k], u) by {
            if exists|k: int| 0 <= k < post.len() && item_touches(#[trigger] post[k], u) {
                let k = choose|k: int| 0 <= k < post.len() && item_touches(#[trigger] post[k], u);
                if k < i {
                    assert(item_touches(pre[k], u));
                }
            }
            if before.vertices.contains(u) {
                let k = choose|k: int| 0 <= k < pre.len() && item_touches(#[trigger] pre[k], u);
                assert(item_touches(post[k], u));
            }
            if item_touches(it, u) {
                assert(item_touches(post[i as int], u));
            }
        }
        assert forall|p: EdgeID| #[trigger] g.model().edges.contains(p) <==> exists|k: int| 0 <= k < post.len() && item_stores::<G>(#[trigger] post[k], p) by {
            if exists|k: int| 0 <= k < post.len() && item_stores::<G>(#[trigger] post[k], p) {
                let k = choose|k: int| 0 <= k < post.len() && item_stores::<G>(#[trigger] post[k], p);
                if k < i {
                    assert(item_stores::<G>(pre[k], p));
                }
            }
            if before.edges.contains(p) {
                let k = choose|k: int| 0 <= k < pre.len() && item_stores::<G>(#[trigger] pre[k], p);
                assert(item_stores::<G>(post[k], p));
            }
            if item_stores::<G>(it, p) {
                assert(item_stores::<G>(post[i as int], p));
            }
        }
        i = i + 1;
    }
    assert(items@.take(items@.len() as int) == items@);
    g
}

/// An undirected graph stored as ascending lists of vertices and of edges `(a, b)` with `a <= b`.
#[derive(Debug)]
pub struct SparseSimpleGraph {
    vertices: Vec<VertexID>,
    edges: Vec<EdgeID>,
}

impl SparseSimpleGraph {
    /// Every stored edge `(a, b)` has `a <= b`.
    #[verifier::type_invariant]
    spec fn edges_normalized(self) -> bool {
        forall|p: (usize, usize)| #[trigger] self.edges@.contains(p) ==> p.0 <= p.1
    }
}

impl GraphTrait for SparseSimpleGraph {
    closed spec fn model(&self) -> GraphView {
        GraphView { vertices: self.vertices@, edges: self.edges@ }
    }

    open spec fn edge_key(e: EdgeID) -> EdgeID {
        if e.0 <= e.1 { e } else { (e.1, e.0) }
    }

    fn edge_key_of(e: EdgeID) -> (r: EdgeID) {
        if e.0 <= e.1 { e } else { (e.1, e.0) }
    }

    fn edges_are_keys(&self) {
        proof { use_type_invariant(self); }
    }

    fn new() -> (g: Self) {
        SparseSimpleGraph { vertices: Vec::new(), edges: Vec::new() }
    }

    fn vertex_count(&self) -> (n: usize) {
        self.vertices.len()
    }

    fn edge_count(&self) -> (n: usize) {
        self.edges.len()
    }

    fn vertices(&self) -> (r: Vec<VertexID>) {
        self.vertices.clone()
    }

    fn edges(&self) -> (r: Vec<EdgeID>) {
        copy_pairs(&self.edges)
    }

    fn contains(&self, v: VertexID) -> (r: bool) {
        ids_contain(&self.vertices, v)
    }

    fn has_edge(&self, e: EdgeID) -> (r: bool) {
        let key = if e.0 <= e.1 { e } else { (e.1, e.0) };
        pairs_contain(&self.edges, key)
    }

    fn neighbors(&self, v: VertexID) -> (r: Option<Vec<VertexID>>) {
        if !ids_contain(&self.vertices, v) {
            return None;
        }
        Some(collect_neighbors(&self.edges, v, true, true))
    }

    fn add_vertex(&mut self, v: VertexID) {
        proof { use_type_invariant(&*self); }
        { let mut vs = self.vertices.clone(); ids_insert(&mut vs, v); self.vertices = vs; }
    }

    fn add_edge(&mut self, e: EdgeID) {
        proof { use_type_invariant(&*self); }
        { let mut vs = self.vertices.clone(); ids_insert(&mut vs, e.0); self.vertices = vs; }
        { let mut vs = self.vertices.clone(); ids_insert(&mut vs, e.1); self.vertices = vs; }
        let key = if e.0 <= e.1 { e } else { (e.1, e.0) };
        let mut es = copy_pairs(&self.edges);
        pairs_insert(&mut es, key);
        assert forall|p: (usize, usize)| #[trigger] es@.contains(p) implies p.0 <= p.1 by {
            if p != key { assert(self.edges@.contains(p)); }
        }
        self.edges = es;
    }

    fn create_vertex(&mut self) -> (v: VertexID) {
        proof { use_type_invariant(&*self); }
        let v: usize = if self.vertices.len() == 0 { 0 } else { self.vertices[self.vertices.len() - 1] + 1 };
        assert(!self.vertices@.contains(v)) by {
            if self.vertices@.contains(v) {
                let k = choose|k: int| 0 <= k < self.vertices@.len() && self.vertices@[k] == v;
                if k < self.vertices@.len() - 1 {
                    assert(self.vertices@[k] < self.vertices@.last());
                }
            }
        }
        { let mut vs = self.vertices.clone(); ids_insert(&mut vs, v); self.vertices = vs; }
        v
    }

    fn delete_edge(&mut self, e: EdgeID) {
        proof { use_type_invariant(&*self); }
        let key = if e.0 <= e.1 { e } else { (e.1, e.0) };
        let mut es = copy_pairs(&self.edges);
        pairs_remove(&mut es, key);
        assert forall|p: (usize, usize)| #[trigger] es@.contains(p) implies p.0 <= p.1 by {
            assert(self.edges@.contains(p));
        }
        self.edges = es;
    }

    fn delete_vertex(&mut self, v: VertexID) {
        proof { use_type_invariant(&*self); }
        let es = pairs_without_vertex(&self.edges, v);
        assert forall|p: (usize, usize)| #[trigger] es@.contains(p) implies p.0 <= p.1 by {
            assert(self.edges@.contains(p));
        }
        self.edges = es;
        { let mut vs = self.vertices.clone(); ids_remove(&mut vs, v); self.vertices = vs; }
    }
}

impl SimpleGraph for SparseSimpleGraph {
}

impl Default for SparseSimpleGraph {
    fn default() -> (g: Self)
        ensures
            g.model().wf(),
            g.model().vertices.len() == 0,
            g.model().edges.len() == 0,
    {
        Self::new()
    }
}

impl Default for SparseDiGraph {
    fn default() -> (g: Self)
        ensures
            g.model().wf(),
            g.model().vertices.len() == 0,
            g.model().edges.len() == 0,
    {
        Self::new()
    }
}

/// A directed graph stored as ascending lists of vertices and of arcs `(source, target)`.
#[derive(Debug)]
pub struct SparseDiGraph {
    vertices: Vec<VertexID>,
    arcs: Vec<EdgeID>,
}

impl GraphTrait for SparseDiGraph {
    closed spec fn model(&self) -> GraphView {
        GraphView { vertices: self.vertices@, edges: self.arcs@ }
    }

    open spec fn edge_key(e: EdgeID) -> EdgeID {
        e
    }

    fn edge_key_of(e: EdgeID) -> (r: EdgeID) {
        e
    }

    fn edges_are_keys(&self) {
    }

    fn new() -> (g: Self) {
        SparseDiGraph { vertices: Vec::new(), arcs: Vec::new() }
    }

    fn vertex_count(&self) -> (n: usize) {
        self.vertices.len()
    }

    fn edge_count(&self) -> (n: usize) {
        self.arcs.len()
    }

    fn vertices(&self) -> (r: Vec<VertexID>) {
        self.vertices.clone()
    }

    fn edges(&self) -> (r: Vec<EdgeID>) {
        copy_pairs(&self.arcs)
    }

    fn contains(&self, v: VertexID) -> (r: bool) {
        ids_contain(&self.vertices, v)
    }

    fn has_edge(&self, e: EdgeID) -> (r: bool) {
        pairs_contain(&self.arcs, e)
    }

    fn neighbors(&self, v: VertexID) -> (r: Option<Vec<VertexID>>) {
        if !ids_contain(&self.vertices, v) {
            return None;
        }
        Some(collect_neighbors(&self.arcs, v, true, true))
    }

    fn add_vertex(&mut self, v: VertexID) {
        ids_insert(&mut self.vertices, v);
    }

    fn add_edge(&mut self, e: EdgeID) {
        ids_insert(&mut self.vertices, e.0);
        ids_insert(&mut self.vertices, e.1);
        pairs_insert(&mut self.arcs, e);
    }

    fn create_vertex(&mut self) -> (v: VertexID) {
        let v: usize = if self.vertices.len() == 0 { 0 } else { self.vertices[self.vertices.len() - 1] + 1 };
        assert(!self.vertices@.contains(v)) by {
            if self.vertices@.contains(v) {
                let k = choose|k: int| 0 <= k < self.vertices@.len() && self.vertices@[k] == v;
                if k < self.vertices@.len() - 1 {
                    assert(self.vertices@[k] < self.vertices@.last());
                }
            }
        }
        ids_insert(&mut self.vertices, v);
        v
    }

    fn delete_edge(&mut self, e: EdgeID) {
        pairs_remove(&mut self.arcs, e);
    }

    fn delete_vertex(&mut self, v: VertexID) {
        self.arcs = pairs_without_vertex(&self.arcs, v);
        ids_remove(&mut self.vertices, v);
    }
}

impl DiGraph for SparseDiGraph {
    fn in_neighbors(&self, v: VertexID) -> (r: Option<Vec<VertexID>>) {
        if !ids_contain(&self.vertices, v) {
            return None;
        }
        Some(collect_neighbors(&self.arcs, v, false, true))
    }

    fn out_neighbors(&self, v: VertexID) -> (r: Option<Vec<VertexID>>) {
        if !ids_contain(&self.vertices, v) {
            return None;
        }
        Some(collect_neighbors(&self.arcs, v, true, false))
    }
}

/// Directed graphs that can give the undirected graph underneath them.
pub trait UnderlyingGraph: DiGraph {
    /// The undirected graph with the same vertices and an edge wherever an arc runs either way.
    fn underlying_graph(&self) -> (g: SparseSimpleGraph)
        requires
            self.model().wf(),
        ensures
            g.model().wf(),
            g.model().vertices == self.model().vertices,
            forall|p: EdgeID| #[trigger] g.model().edges.contains(p) <==> (p.0 <= p.1 && self.model().adjacent(p.0, p.1)),
    ;
}

/// A copy of an undirected graph.
pub fn clone_graph(in_graph: &SparseSimpleGraph) -> (r: SparseSimpleGraph)
    ensures
        r.model() == in_graph.model(),
{
    proof { use_type_invariant(in_graph); }
    SparseSimpleGraph { vertices: in_graph.vertices.clone(), edges: copy_pairs(&in_graph.edges) }
}

impl UnderlyingGraph for SparseDiGraph {
    fn underlying_graph(&self) -> (g: SparseSimpleGraph) {
        let mut g = SparseSimpleGraph::new();
        let mut i: usize = 0;
        while i < self.vertices.len()
            invariant
                g.model().wf(),
                g.model().edges.len() == 0,
                i <= self.vertices@.len(),
                forall|u: usize| #[trigger] g.model().vertices.contains(u) <==> self.vertices@.subrange(0, i as int).contains(u),
            decreases self.vertices@.len() - i,
        {
            let v = self.vertices[i];
            assert(self.vertices@.subrange(0, i + 1) == self.vertices@.subrange(0, i as int).push(v));
            proof { lemma_push_contains(self.vertices@.subrange(0, i as int), v); }
            g.add_vertex(v);
            i = i + 1;
        }
        assert(self.vertices@.subrange(0, self.vertices@.len() as int) == self.vertices@);
        let mut j: usize = 0;
        while j < self.arcs.len()
            invariant
                self.model().wf(),
                g.model().wf(),
                j <= self.arcs@.len(),
                forall|u: usize| #[trigger] g.model().vertices.contains(u) <==> self.vertices@.contains(u),
                forall|p: EdgeID| #[trigger] g.model().edges.contains(p) <==> (p.0 <= p.1 && (self.arcs@.subrange(0, j as int).contains(p) || self.arcs@.subrange(0, j as int).contains((p.1, p.0)))),
            decreases self.arcs@.len() - j,
        {
            let e = self.arcs[j];
            assert(self.arcs@.contains(e));
            assert(self.arcs@.subrange(0, j + 1) == self.arcs@.subrange(0, j as int).push(e));
            proof { lemma_push_contains(self.arcs@.subrange(0, j as int), e); }
            g.add_edge(e);
            j = j + 1;
        }
        assert(self.arcs@.subrange(0, self.arcs@.len() as int) == self.arcs@);
        proof {
            assert forall|u: usize| g.model().vertices.contains(u) <==> self.vertices@.contains(u) by {}
            lemma_sorted_ids_unique(g.model().vertices, self.vertices@);
        }
        g
    }
}


} // verus!
