//! Graphs with a value attached to vertices and edges.
use vstd::prelude::*;
use crate::graph::{GraphTrait, GraphView, VertexID, EdgeID, SimpleGraph, DiGraph};
use crate::value::{Value, Tree};
use crate::bridge::TypedValue;
use crate::error::SerializationError;

verus! {

/// The label bound last to `k` in an association list, if any.
pub open spec fn assoc_get<K>(s: Seq<(K, Tree)>, k: K) -> Option<Tree>
    decreases s.len(),
{
    if s.len() == 0 {
        None
    } else if s.last().0 == k {
        Some(s.last().1)
    } else {
        assoc_get(s.drop_last(), k)
    }
}

pub open spec fn assoc_view<K>(s: Seq<(K, Value)>) -> Seq<(K, Tree)> {
    s.map_values(|e: (K, Value)| (e.0, e.1@))
}

/// Finds the entry that binds `k` last.
fn find_vertex_entry(s: &Vec<(VertexID, Value)>, k: VertexID) -> (r: Option<usize>)
    ensures
        r is None ==> assoc_get(assoc_view(s@), k) is None,
        r matches Some(i) ==> i < s@.len() && assoc_get(assoc_view(s@), k) == Some(s@[i as int].1@),
{
    let mut i: usize = s.len();
    assert(assoc_view(s@).take(i as int) == assoc_view(s@));
    while i > 0
        invariant
            i <= s@.len(),
            assoc_get(assoc_view(s@), k) == assoc_get(assoc_view(s@).take(i as int), k),
        decreases i,
    {
        assert(assoc_view(s@).take(i as int).drop_last() == assoc_view(s@).take(i - 1));
        let key = s[i - 1].0;
        if key == k {
            return Some(i - 1);
        }
        i = i - 1;
    }
    None
}

/// Finds the entry that binds `k` last.
fn find_edge_entry(s: &Vec<(EdgeID, Value)>, k: EdgeID) -> (r: Option<usize>)
    ensures
        r is None ==> assoc_get(assoc_view(s@), k) is None,
        r matches Some(i) ==> i < s@.len() && assoc_get(assoc_view(s@), k) == Some(s@[i as int].1@),
{
    let mut i: usize = s.len();
    assert(assoc_view(s@).take(i as int) == assoc_view(s@));
    while i > 0
        invariant
            i <= s@.len(),
            assoc_get(assoc_view(s@), k) == assoc_get(assoc_view(s@).take(i as int), k),
        decreases i,
    {
        assert(assoc_view(s@).take(i as int).drop_last() == assoc_view(s@).take(i - 1));
        let key = s[i - 1].0;
        if key.0 == k.0 && key.1 == k.1 {
            return Some(i - 1);
        }
        i = i - 1;
    }
    None
}

/// The entries whose key is not `k`, in order.
fn without_vertex_entry(s: &Vec<(VertexID, Value)>, k: VertexID) -> (r: Vec<(VertexID, Value)>)
    ensures
        forall|j: VertexID| #[trigger] assoc_get(assoc_view(r@), j) == if j == k { None } else { assoc_get(assoc_view(s@), j) },
{
    let mut r: Vec<(VertexID, Value)> = Vec::new();
    let mut i: usize = 0;
    while i < s.len()
        invariant
            i <= s@.len(),
            forall|j: VertexID| #[trigger] assoc_get(assoc_view(r@), j) == if j == k { None } else { assoc_get(assoc_view(s@.take(i as int)), j) },
        decreases s@.len() - i,
    {
        let key = s[i].0;
        let ghost before = r@;
        assert(assoc_view(s@.take(i + 1)) =~= assoc_view(s@.take(i as int)).push((key, s@[i as int].1@)));
        if key != k {
            let v = s[i].1.duplicate();
            r.push((key, v));
            assert(assoc_view(r@) =~= assoc_view(before).push((key, v@)));
        }
        assert forall|j: VertexID| #[trigger] assoc_get(assoc_view(r@), j) == if j == k { None } else { assoc_get(assoc_view(s@.take(i + 1)), j) } by {
            assert(assoc_view(s@.take(i + 1)).drop_last() == assoc_view(s@.take(i as int)));
            assert(assoc_get(assoc_view(before), j) == if j == k { None } else { assoc_get(assoc_view(s@.take(i as int)), j) });
            if key != k {
                assert(assoc_view(r@).drop_last() == assoc_view(before));
            } else {
                assert(r@ == before);
            }
        }
        i = i + 1;
    }
    assert(s@.take(s@.len() as int) == s@);
    r
}

/// The entries whose key touches neither `v` nor matches `drop` exactly, in order.
fn without_edge_entries(s: &Vec<(EdgeID, Value)>, v: Option<VertexID>, drop: Option<EdgeID>) -> (r: Vec<(EdgeID, Value)>)
    ensures
        forall|p: EdgeID| #[trigger] assoc_get(assoc_view(r@), p) == if edge_dropped(p, v, drop) { None } else { assoc_get(assoc_view(s@), p) },
{
    let mut r: Vec<(EdgeID, Value)> = Vec::new();
    let mut i: usize = 0;
    while i < s.len()
        invariant
            i <= s@.len(),
            forall|p: EdgeID| #[trigger] assoc_get(assoc_view(r@), p) == if edge_dropped(p, v, drop) { None } else { assoc_get(assoc_view(s@.take(i as int)), p) },
        decreases s@.len() - i,
    {
        let key = s[i].0;
        let ghost before = r@;
        assert(assoc_view(s@.take(i + 1)) =~= assoc_view(s@.take(i as int)).push((key, s@[i as int].1@)));
        let touches = match v {
            Some(x) => key.0 == x || key.1 == x,
            None => false,
        };
        let same = match drop {
            Some(d) => key.0 == d.0 && key.1 == d.1,
            None => false,
        };
        if !touches && !same {
            let val = s[i].1.duplicate();
            r.push((key, val));
            assert(assoc_view(r@) =~= assoc_view(before).push((key, val@)));
        }
        assert forall|p: EdgeID| #[trigger] assoc_get(assoc_view(r@), p) == if edge_dropped(p, v, drop) { None } else { assoc_get(assoc_view(s@.take(i + 1)), p) } by {
            assert(assoc_view(s@.take(i + 1)).drop_last() == assoc_view(s@.take(i as int)));
            assert(assoc_get(assoc_view(before), p) == if edge_dropped(p, v, drop) { None } else { assoc_get(assoc_view(s@.take(i as int)), p) });
            if !touches && !same {
                assert(assoc_view(r@).drop_last() == assoc_view(before));
            } else {
                assert(r@ == before);
            }
        }
        i = i + 1;
    }
    assert(s@.take(s@.len() as int) == s@);
    r
}

pub open spec fn edge_dropped(p: EdgeID, v: Option<VertexID>, drop: Option<EdgeID>) -> bool {
    (v matches Some(x) && (p.0 == x || p.1 == x)) || drop == Some(p)
}

/// Graphs that attach values to their vertices and edges.
pub trait LabeledGraph: GraphTrait {
    /// The label of a vertex of the graph.
    spec fn label_of_vertex(&self, v: VertexID) -> Option<Tree>;

    /// The label of an edge of the graph.
    spec fn label_of_edge(&self, e: EdgeID) -> Option<Tree>;

    /// The labeled vertices in ascending order, each with a copy of its label.
    fn vertex_labels(&self) -> (r: Vec<(VertexID, Value)>)
        requires
            self.model().wf(),
        ensures
            forall|k: int| 0 <= k < r@.len() ==> Some(#[trigger] r@[k].1@) == self.label_of_vertex(r@[k].0),
            forall|v: VertexID| #[trigger] self.label_of_vertex(v) is Some ==> exists|k: int| 0 <= k < r@.len() && r@[k].0 == v,
    ;

    /// The labeled edges in ascending order, each with a copy of its label.
    fn edge_labels(&self) -> (r: Vec<(EdgeID, Value)>)
        requires
            self.model().wf(),
        ensures
            forall|k: int| 0 <= k < r@.len() ==> Some(#[trigger] r@[k].1@) == self.label_of_edge(r@[k].0),
            forall|k: int| 0 <= k < r@.len() ==> self.model().edges.contains(#[trigger] r@[k].0),
    ;
}

/// A graph of type `G` with a value attached to some vertices and edges.
/// Edge labels are kept under the pair that `G` stores the edge as.
#[derive(Debug)]
pub struct HashMapLabeledGraph<G> {
    graph: G,
    vertex_labels: Vec<(VertexID, Value)>,
    edge_labels: Vec<(EdgeID, Value)>,
}

impl<G: GraphTrait> HashMapLabeledGraph<G> {
    /// The label of a vertex of the graph.
    pub closed spec fn vertex_label(&self, v: VertexID) -> Option<Tree> {
        if self.graph.model().vertices.contains(v) {
            assoc_get(assoc_view(self.vertex_labels@), v)
        } else {
            None
        }
    }

    /// The label of an edge of the graph, in either direction where `G` has none.
    pub closed spec fn edge_label(&self, e: EdgeID) -> Option<Tree> {
        if self.graph.model().edges.contains(G::edge_key(e)) {
            assoc_get(assoc_view(self.edge_labels@), G::edge_key(e))
        } else {
            None
        }
    }

    /// Edges stored under the same key carry the same label.
    pub proof fn lemma_edge_label_by_key(&self, e: EdgeID, f: EdgeID)
        requires
            G::edge_key(e) == G::edge_key(f),
        ensures
            self.edge_label(e) == self.edge_label(f),
    {
    }

    /// A graph without vertices or labels.
    pub fn new() -> (g: Self)
        ensures
            g.model().wf(),
            g.model().vertices.len() == 0,
            g.model().edges.len() == 0,
    {
        HashMapLabeledGraph { graph: G::new(), vertex_labels: Vec::new(), edge_labels: Vec::new() }
    }

    /// A labeled graph over `graph`, with no labels yet.
    pub fn from_graph(graph: G) -> (g: Self)
        ensures
            g.model() == graph.model(),
            forall|v: VertexID| g.vertex_label(v) is None,
            forall|e: EdgeID| g.edge_label(e) is None,
    {
        HashMapLabeledGraph { graph, vertex_labels: Vec::new(), edge_labels: Vec::new() }
    }

    /// The graph without its labels.
    pub fn to_graph(self) -> (g: G)
        ensures
            g.model() == self.model(),
    {
        self.graph
    }

    /// The label of a vertex; `None` when the vertex is missing or unlabeled.
    pub fn get_vertex_label(&self, v: VertexID) -> (r: Option<&Value>)
        requires
            self.model().wf(),
        ensures
            r is None <==> self.vertex_label(v) is None,
            r matches Some(x) ==> self.vertex_label(v) == Some(x@),
    {
        if !self.graph.contains(v) {
            return None;
        }
        match find_vertex_entry(&self.vertex_labels, v) {
            Some(i) => Some(&self.vertex_labels[i].1),
            None => None,
        }
    }

    /// The label of an edge; `None` when the edge is missing or unlabeled.
    pub fn get_edge_label(&self, e: EdgeID) -> (r: Option<&Value>)
        requires
            self.model().wf(),
        ensures
            r is None <==> self.edge_label(e) is None,
            r matches Some(x) ==> self.edge_label(e) == Some(x@),
    {
        if !self.graph.has_edge(e) {
            return None;
        }
        match find_edge_entry(&self.edge_labels, G::edge_key_of(e)) {
            Some(i) => Some(&self.edge_labels[i].1),
            None => None,
        }
    }

    /// Attaches a label to a vertex, adding the vertex where it is missing.
    pub fn set_vertex_label(&mut self, v: VertexID, label: Value)
        requires
            old(self).model().wf(),
        ensures
            final(self).model().wf(),
            forall|u: usize| #[trigger] final(self).model().vertices.contains(u) <==> (old(self).model().vertices.contains(u) || u == v),
            final(self).model().edges == old(self).model().edges,
            final(self).vertex_label(v) == Some(label@),
            forall|u: VertexID| u != v ==> #[trigger] final(self).vertex_label(u) == old(self).vertex_label(u),
            forall|e: EdgeID| #[trigger] final(self).edge_label(e) == old(self).edge_label(e),
    {
        self.graph.add_vertex(v);
        self.vertex_labels.push((v, label));
        assert(assoc_view(self.vertex_labels@).drop_last() =~= assoc_view(old(self).vertex_labels@));
        assert(self.graph.model().edges =~= old(self).graph.model().edges);
    }

    /// Attaches a label to an edge, adding the edge and its ends where they are missing.
    pub fn set_edge_label(&mut self, e: EdgeID, label: Value)
        requires
            old(self).model().wf(),
        ensures
            final(self).model().wf(),
            forall|u: usize| #[trigger] final(self).model().vertices.contains(u) <==> (old(self).model().vertices.contains(u) || u == e.0 || u == e.1),
            forall|p: EdgeID| #[trigger] final(self).model().edges.contains(p) <==> (old(self).model().edges.contains(p) || p == G::edge_key(e)),
            final(self).edge_label(e) == Some(label@),
            forall|f: EdgeID| G::edge_key(f) != G::edge_key(e) ==> #[trigger] final(self).edge_label(f) == old(self).edge_label(f),
            forall|u: VertexID| #[trigger] final(self).vertex_label(u) == (if old(self).model().vertices.contains(u) { old(self).vertex_label(u) } else { final(self).vertex_label(u) }),
    {
        self.graph.add_edge(e);
        let key = G::edge_key_of(e);
        self.edge_labels.push((key, label));
        assert(assoc_view(self.edge_labels@).drop_last() =~= assoc_view(old(self).edge_labels@));
    }

    /// Attaches the encoding of a typed label to a vertex.
    pub fn set_vertex_data<V: TypedValue>(&mut self, v: VertexID, data: &V)
        requires
            old(self).model().wf(),
        ensures
            final(self).model().wf(),
            forall|u: usize| #[trigger] final(self).model().vertices.contains(u) <==> (old(self).model().vertices.contains(u) || u == v),
            final(self).model().edges == old(self).model().edges,
            final(self).vertex_label(v) == Some(data.encoded()),
            forall|u: VertexID| u != v ==> #[trigger] final(self).vertex_label(u) == old(self).vertex_label(u),
            forall|e: EdgeID| #[trigger] final(self).edge_label(e) == old(self).edge_label(e),
    {
        let label = data.encode();
        self.set_vertex_label(v, label);
    }

    /// Decodes the label of a vertex into a typed value; `None` when there is no label.
    pub fn vertex_data<V: TypedValue>(&self, v: VertexID) -> (r: Option<Result<V, SerializationError>>)
        requires
            self.model().wf(),
        ensures
            r is None <==> self.vertex_label(v) is None,
            r matches Some(d) ==> (d is Ok <==> V::decodable(self.vertex_label(v)->0)),
            r matches Some(Ok(x)) ==> V::represents(self.vertex_label(v)->0, x),
    {
        match self.get_vertex_label(v) {
            Some(l) => Some(V::decode(l)),
            None => None,
        }
    }

    /// Attaches the encoding of a typed label to an edge.
    pub fn set_edge_data<V: TypedValue>(&mut self, e: EdgeID, data: &V)
        requires
            old(self).model().wf(),
        ensures
            final(self).model().wf(),
            final(self).edge_label(e) == Some(data.encoded()),
            forall|f: EdgeID| G::edge_key(f) != G::edge_key(e) ==> #[trigger] final(self).edge_label(f) == old(self).edge_label(f),
    {
        let label = data.encode();
        self.set_edge_label(e, label);
    }

    /// Decodes the label of an edge into a typed value; `None` when there is no label.
    pub fn edge_data<V: TypedValue>(&self, e: EdgeID) -> (r: Option<Result<V, SerializationError>>)
        requires
            self.model().wf(),
        ensures
            r is None <==> self.edge_label(e) is None,
            r matches Some(d) ==> (d is Ok <==> V::decodable(self.edge_label(e)->0)),
            r matches Some(Ok(x)) ==> V::represents(self.edge_label(e)->0, x),
    {
        match self.get_edge_label(e) {
            Some(l) => Some(V::decode(l)),
            None => None,
        }
    }

    /// Detaches the label of a vertex and returns whether one was attached.
    pub fn remove_vertex_label(&mut self, v: VertexID) -> (r: bool)
        requires
            old(self).model().wf(),
        ensures
            final(self).model() == old(self).model(),
            r == old(self).vertex_label(v) is Some,
            final(self).vertex_label(v) is None,
            forall|u: VertexID| u != v ==> #[trigger] final(self).vertex_label(u) == old(self).vertex_label(u),
            forall|e: EdgeID| #[trigger] final(self).edge_label(e) == old(self).edge_label(e),
    {
        let had = self.get_vertex_label(v).is_some();
        self.vertex_labels = without_vertex_entry(&self.vertex_labels, v);
        had
    }

    /// Detaches the label of an edge and returns whether one was attached.
    pub fn remove_edge_label(&mut self, e: EdgeID) -> (r: bool)
        requires
            old(self).model().wf(),
        ensures
            final(self).model() == old(self).model(),
            r == old(self).edge_label(e) is Some,
            final(self).edge_label(e) is None,
            forall|f: EdgeID| G::edge_key(f) != G::edge_key(e) ==> #[trigger] final(self).edge_label(f) == old(self).edge_label(f),
            forall|u: VertexID| #[trigger] final(self).vertex_label(u) == old(self).vertex_label(u),
    {
        let had = self.get_edge_label(e).is_some();
        let key = G::edge_key_of(e);
        self.edge_labels = without_edge_entries(&self.edge_labels, None, Some(key));
        had
    }
}

impl<G: GraphTrait> LabeledGraph for HashMapLabeledGraph<G> {
    closed spec fn label_of_vertex(&self, v: VertexID) -> Option<Tree> {
        self.vertex_label(v)
    }

    closed spec fn label_of_edge(&self, e: EdgeID) -> Option<Tree> {
        self.edge_label(e)
    }

    fn vertex_labels(&self) -> (r: Vec<(VertexID, Value)>) {
        let verts = self.graph.vertices();
        let mut r: Vec<(VertexID, Value)> = Vec::new();
        let mut i: usize = 0;
        while i < verts.len()
            invariant
                self.model().wf(),
                verts@ == self.graph.model().vertices,
                i <= verts@.len(),
                forall|k: int| 0 <= k < r@.len() ==> Some(#[trigger] r@[k].1@) == self.vertex_label(r@[k].0),
                forall|v: VertexID| #[trigger] self.vertex_label(v) is Some && verts@.take(i as int).contains(v) ==> exists|k: int| 0 <= k < r@.len() && r@[k].0 == v,
            decreases verts@.len() - i,
        {
            let v = verts[i];
            let ghost before = r@;
            match self.get_vertex_label(v) {
                Some(l) => {
                    r.push((v, l.duplicate()));
                    assert(r@[r@.len() - 1].0 == v);
                },
                None => {},
            }
            assert forall|u: VertexID| #[trigger] self.vertex_label(u) is Some && verts@.take(i + 1).contains(u) implies exists|k: int| 0 <= k < r@.len() && r@[k].0 == u by {
                let j = choose|j: int| 0 <= j < i + 1 && #[trigger] verts@.take(i + 1)[j] == u;
                if j < i {
                    assert(verts@.take(i as int)[j] == u);
                    let k = choose|k: int| 0 <= k < before.len() && before[k].0 == u;
                    assert(r@[k] == before[k]);
                } else {
                    assert(r@[r@.len() - 1].0 == u);
                }
            }
            i = i + 1;
        }
        proof {
            assert forall|v: VertexID| #[trigger] self.vertex_label(v) is Some implies exists|k: int| 0 <= k < r@.len() && r@[k].0 == v by {
                assert(verts@.take(verts@.len() as int) == verts@);
            }
        }
        r
    }

    fn edge_labels(&self) -> (r: Vec<(EdgeID, Value)>) {
        let edges = self.graph.edges();
        let mut r: Vec<(EdgeID, Value)> = Vec::new();
        let mut i: usize = 0;
        while i < edges.len()
            invariant
                self.model().wf(),
                edges@ == self.graph.model().edges,
                i <= edges@.len(),
                forall|k: int| 0 <= k < r@.len() ==> Some(#[trigger] r@[k].1@) == self.edge_label(r@[k].0),
                forall|k: int| 0 <= k < r@.len() ==> self.graph.model().edges.contains(#[trigger] r@[k].0),
            decreases edges@.len() - i,
        {
            let e = edges[i];
            assert(edges@.contains(e));
            match self.get_edge_label(e) {
                Some(l) => {
                    r.push((e, l.duplicate()));
                },
                None => {},
            }
            i = i + 1;
        }
        r
    }
}

impl<G: SimpleGraph> SimpleGraph for HashMapLabeledGraph<G> {
}

impl<G: DiGraph> DiGraph for HashMapLabeledGraph<G> {
    fn in_neighbors(&self, v: VertexID) -> (r: Option<Vec<VertexID>>) {
        self.graph.in_neighbors(v)
    }

    fn out_neighbors(&self, v: VertexID) -> (r: Option<Vec<VertexID>>) {
        self.graph.out_neighbors(v)
    }
}

impl<G: GraphTrait> GraphTrait for HashMapLabeledGraph<G> {
    closed spec fn model(&self) -> GraphView {
        self.graph.model()
    }

    open spec fn edge_key(e: EdgeID) -> EdgeID {
        G::edge_key(e)
    }

    fn edge_key_of(e: EdgeID) -> (r: EdgeID) {
        G::edge_key_of(e)
    }

    fn edges_are_keys(&self) {
        self.graph.edges_are_keys();
    }

    fn new() -> (g: Self) {
        HashMapLabeledGraph { graph: G::new(), vertex_labels: Vec::new(), edge_labels: Vec::new() }
    }

    fn vertex_count(&self) -> (n: usize) {
        self.graph.vertex_count()
    }

    fn edge_count(&self) -> (n: usize) {
        self.graph.edge_count()
    }

    fn vertices(&self) -> (r: Vec<VertexID>) {
        self.graph.vertices()
    }

    fn edges(&self) -> (r: Vec<EdgeID>) {
        self.graph.edges()
    }

    fn contains(&self, v: VertexID) -> (r: bool) {
        self.graph.contains(v)
    }

    fn has_edge(&self, e: EdgeID) -> (r: bool) {
        self.graph.has_edge(e)
    }

    fn neighbors(&self, v: VertexID) -> (r: Option<Vec<VertexID>>) {
        self.graph.neighbors(v)
    }

    fn add_vertex(&mut self, v: VertexID) {
        self.graph.add_vertex(v);
    }

    fn add_edge(&mut self, e: EdgeID) {
        self.graph.add_edge(e);
    }

    fn create_vertex(&mut self) -> (v: VertexID) {
        self.graph.create_vertex()
    }

    /// Also detaches the edge's label.
    fn delete_edge(&mut self, e: EdgeID) {
        self.graph.delete_edge(e);
        let key = G::edge_key_of(e);
        self.edge_labels = without_edge_entries(&self.edge_labels, None, Some(key));
    }

    /// Also detaches the labels of the vertex and of the edges that touched it.
    fn delete_vertex(&mut self, v: VertexID) {
        self.graph.delete_vertex(v);
        self.vertex_labels = without_vertex_entry(&self.vertex_labels, v);
        self.edge_labels = without_edge_entries(&self.edge_labels, Some(v), None);
    }
}

/// Whether every label of the graph decodes: vertex labels as `V`, edge labels as `E`.
pub open spec fn labels_decode<G: GraphTrait, V: TypedValue, E: TypedValue>(g: &HashMapLabeledGraph<G>) -> bool {
    &&& forall|u: VertexID| #[trigger] g.model().vertices.contains(u) ==> (g.vertex_label(u) matches Some(t) ==> V::decodable(t))
    &&& forall|p: EdgeID| #[trigger] g.model().edges.contains(p) ==> (g.edge_label(p) matches Some(t) ==> E::decodable(t))
}

/// Checks that every label decodes: vertex labels as `V`, edge labels as `E`;
/// the first that does not gives its decode message.
pub fn check_labels<G: GraphTrait, V: TypedValue, E: TypedValue>(g: &HashMapLabeledGraph<G>) -> (r: Result<(), String>)
    requires
        g.model().wf(),
    ensures
        r is Ok <==> labels_decode::<G, V, E>(g),
        r matches Err(m) ==> (exists|u: VertexID| g.model().vertices.contains(u) && (g.vertex_label(u) matches Some(t)
            && !V::decodable(t) && m@ == V::decode_error(t)))
            || (exists|p: EdgeID| g.model().edges.contains(p) && (g.edge_label(p) matches Some(t)
            && !E::decodable(t) && m@ == E::decode_error(t))),
{
    let verts = g.vertices();
    let mut i: usize = 0;
    while i < verts.len()
        invariant
            g.model().wf(),
            verts@ == g.model().vertices,
            i <= verts@.len(),
            forall|k: int| 0 <= k < i ==> (g.vertex_label(#[trigger] verts@[k]) matches Some(t) ==> V::decodable(t)),
        decreases verts@.len() - i,
    {
        if let Some(l) = g.get_vertex_label(verts[i]) {
            match V::decode(l) {
                Ok(_) => {},
                Err(SerializationError::Message(m)) => {
                    assert(g.model().vertices.contains(verts@[i as int]));
                    return Err(m);
                },
            }
        }
        i = i + 1;
    }
    let edges = g.edges();
    let mut j: usize = 0;
    while j < edges.len()
        invariant
            g.model().wf(),
            verts@ == g.model().vertices,
            edges@ == g.model().edges,
            forall|k: int| 0 <= k < verts@.len() ==> (g.vertex_label(#[trigger] verts@[k]) matches Some(t) ==> V::decodable(t)),
            j <= edges@.len(),
            forall|k: int| 0 <= k < j ==> (g.edge_label(#[trigger] edges@[k]) matches Some(t) ==> E::decodable(t)),
        decreases edges@.len() - j,
    {
        if let Some(l) = g.get_edge_label(edges[j]) {
            match E::decode(l) {
                Ok(_) => {},
                Err(SerializationError::Message(m)) => {
                    assert(g.model().edges.contains(edges@[j as int]));
                    return Err(m);
                },
            }
        }
        j = j + 1;
    }
    assert forall|u: VertexID| #[trigger] g.model().vertices.contains(u) implies (g.vertex_label(u) matches Some(t) ==> V::decodable(t)) by {
        let k = choose|k: int| 0 <= k < verts@.len() && verts@[k] == u;
        assert(g.vertex_label(verts@[k]) matches Some(t) ==> V::decodable(t));
    }
    assert forall|p: EdgeID| #[trigger] g.model().edges.contains(p) implies (g.edge_label(p) matches Some(t) ==> E::decodable(t)) by {
        let k = choose|k: int| 0 <= k < edges@.len() && edges@[k] == p;
        assert(g.edge_label(edges@[k]) matches Some(t) ==> E::decodable(t));
    }
    Ok(())
}

} // verus!
