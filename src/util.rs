//! Comparisons of graphs and graph distance.
use vstd::prelude::*;
use crate::graph::{GraphTrait, GraphView, SimpleGraph, VertexID, EdgeID};
use crate::labeled::{HashMapLabeledGraph, LabeledGraph};
use crate::sorted::ids_contain;
use crate::value::Value;

verus! {

/// Whether two vertex lists are equal.
fn ids_equal(a: &Vec<VertexID>, b: &Vec<VertexID>) -> (r: bool)
    ensures
        r == (a@ == b@),
{
    if a.len() != b.len() {
        return false;
    }
    let mut i: usize = 0;
    while i < a.len()
        invariant
            a@.len() == b@.len(),
            i <= a@.len(),
            forall|k: int| 0 <= k < i ==> a@[k] == b@[k],
        decreases a@.len() - i,
    {
        if a[i] != b[i] {
            return false;
        }
        i = i + 1;
    }
    assert(a@ =~= b@);
    true
}

/// Whether two edge lists are equal.
fn pairs_equal(a: &Vec<EdgeID>, b: &Vec<EdgeID>) -> (r: bool)
    ensures
        r == (a@ == b@),
{
    if a.len() != b.len() {
        return false;
    }
    let mut i: usize = 0;
    while i < a.len()
        invariant
            a@.len() == b@.len(),
            i <= a@.len(),
            forall|k: int| 0 <= k < i ==> a@[k] == b@[k],
        decreases a@.len() - i,
    {
        if a[i].0 != b[i].0 || a[i].1 != b[i].1 {
            return false;
        }
        i = i + 1;
    }
    assert(a@ =~= b@);
    true
}

/// Whether two graphs have the same vertices and the same edges.
pub fn graphs_eq<G: GraphTrait>(graph_a: &G, graph_b: &G) -> (r: bool)
    requires
        graph_a.model().wf(),
        graph_b.model().wf(),
    ensures
        r == (graph_a.model() == graph_b.model()),
{
    let r = ids_equal(&graph_a.vertices(), &graph_b.vertices()) && pairs_equal(&graph_a.edges(), &graph_b.edges());
    proof {
        if graph_a.model().vertices == graph_b.model().vertices && graph_a.model().edges == graph_b.model().edges {
            assert(graph_a.model() == graph_b.model());
        }
    }
    r
}

/// Whether two optional labels are the same.
fn labels_equal(a: Option<&Value>, b: Option<&Value>) -> (r: bool)
    ensures
        r == (crate::gml::opt_view(a) == crate::gml::opt_view(b)),
{
    match (a, b) {
        (Some(x), Some(y)) => x.equals(y),
        (None, None) => true,
        _ => false,
    }
}

/// Whether two labeled graphs have the same vertices, edges and labels.
pub fn labeled_graphs_eq<G: GraphTrait>(graph_a: &HashMapLabeledGraph<G>, graph_b: &HashMapLabeledGraph<G>) -> (r: bool)
    requires
        graph_a.model().wf(),
        graph_b.model().wf(),
    ensures
        r == (graph_a.model() == graph_b.model()
            && (forall|v: VertexID| graph_a.model().vertices.contains(v) ==> #[trigger] graph_a.vertex_label(v) == graph_b.vertex_label(v))
            && (forall|p: EdgeID| graph_a.model().edges.contains(p) ==> #[trigger] graph_a.edge_label(p) == graph_b.edge_label(p))),
{
    if !graphs_eq(graph_a, graph_b) {
        return false;
    }
    let verts = graph_a.vertices();
    let mut i: usize = 0;
    while i < verts.len()
        invariant
            graph_a.model().wf(),
            graph_b.model().wf(),
            graph_a.model() == graph_b.model(),
            verts@ == graph_a.model().vertices,
            i <= verts@.len(),
            forall|k: int| 0 <= k < i ==> #[trigger] graph_a.vertex_label(verts@[k]) == graph_b.vertex_label(verts@[k]),
        decreases verts@.len() - i,
    {
        if !labels_equal(graph_a.get_vertex_label(verts[i]), graph_b.get_vertex_label(verts[i])) {
            return false;
        }
        i = i + 1;
    }
    let edges = graph_a.edges();
    let mut j: usize = 0;
    while j < edges.len()
        invariant
            graph_a.model().wf(),
            graph_b.model().wf(),
            graph_a.model() == graph_b.model(),
            edges@ == graph_a.model().edges,
            verts@ == graph_a.model().vertices,
            forall|k: int| 0 <= k < verts@.len() ==> #[trigger] graph_a.vertex_label(verts@[k]) == graph_b.vertex_label(verts@[k]),
            j <= edges@.len(),
            forall|k: int| 0 <= k < j ==> #[trigger] graph_a.edge_label(edges@[k]) == graph_b.edge_label(edges@[k]),
        decreases edges@.len() - j,
    {
        if !labels_equal(graph_a.get_edge_label(edges[j]), graph_b.get_edge_label(edges[j])) {
            return false;
        }
        j = j + 1;
    }
    proof {
        assert forall|v: VertexID| graph_a.model().vertices.contains(v) implies #[trigger] graph_a.vertex_label(v) == graph_b.vertex_label(v) by {
            let k = choose|k: int| 0 <= k < verts@.len() && verts@[k] == v;
            assert(graph_a.vertex_label(verts@[k]) == graph_b.vertex_label(verts@[k]));
        }
        assert forall|p: EdgeID| graph_a.model().edges.contains(p) implies #[trigger] graph_a.edge_label(p) == graph_b.edge_label(p) by {
            let k = choose|k: int| 0 <= k < edges@.len() && edges@[k] == p;
            assert(graph_a.edge_label(edges@[k]) == graph_b.edge_label(edges@[k]));
        }
    }
    true
}

/// The vertices that a walk of at most `d` edges from `u` reaches.
pub open spec fn reach(g: GraphView, u: VertexID, d: nat) -> Set<VertexID>
    decreases d,
{
    if d == 0 {
        set![u]
    } else {
        let r = reach(g, u, (d - 1) as nat);
        r.union(Set::new(|w: VertexID| exists|x: VertexID| r.contains(x) && g.adjacent(x, w)))
    }
}

/// The number of edges on a shortest walk from `u` to `v`, found level by
/// level: `Some(d)` where `v` is first reached within `d` edges, `None` when
/// either vertex is missing or `v` is not reached within `|V|` edges (so no
/// walk joins them).
pub fn graph_distance<G: SimpleGraph>(g: &G, u: VertexID, v: VertexID) -> (r: Option<u64>)
    requires
        g.model().wf(),
    ensures
        !g.model().vertices.contains(u) || !g.model().vertices.contains(v) ==> r is None,
        r matches Some(d) ==> reach(g.model(), u, d as nat).contains(v)
            && (d == 0 || !reach(g.model(), u, (d - 1) as nat).contains(v)),
        (r is None && g.model().vertices.contains(u) && g.model().vertices.contains(v))
            ==> !reach(g.model(), u, g.model().vertices.len()).contains(v),
{
    if !g.contains(v) || !g.contains(u) {
        return None;
    }
    let ghost m = g.model();
    let n = g.vertex_count();
    let mut visited: Vec<VertexID> = Vec::new();
    crate::sorted::ids_insert(&mut visited, u);
    assert(forall|x: usize| visited@.contains(x) <==> reach(m, u, 0).contains(x));
    let mut d: usize = 0;
    loop
        invariant
            g.model() == m,
            m.wf(),
            n == m.vertices.len(),
            m.vertices.contains(u),
            m.vertices.contains(v),
            d <= n,
            crate::sorted::ids_sorted(visited@),
            forall|x: usize| visited@.contains(x) <==> #[trigger] reach(m, u, d as nat).contains(x),
            d > 0 ==> !reach(m, u, (d - 1) as nat).contains(v),
        decreases n - d,
    {
        if ids_contain(&visited, v) {
            return Some(d as u64);
        }
        if d >= n {
            return None;
        }
        let ghost r = reach(m, u, d as nat);
        let mut next: Vec<VertexID> = visited.clone();
        let mut k: usize = 0;
        while k < visited.len()
            invariant
                g.model() == m,
                m.wf(),
                crate::sorted::ids_sorted(visited@),
                crate::sorted::ids_sorted(next@),
                k <= visited@.len(),
                forall|x: usize| visited@.contains(x) <==> r.contains(x),
                forall|y: usize| #[trigger] next@.contains(y) <==> (r.contains(y)
                    || exists|q: int| 0 <= q < k && m.adjacent(visited@[q], y)),
            decreases visited@.len() - k,
        {
            let x = visited[k];
            let ghost before = next@;
            match g.neighbors(x) {
                Some(nbrs) => {
                    let mut j: usize = 0;
                    while j < nbrs.len()
                        invariant
                            crate::sorted::ids_sorted(next@),
                            j <= nbrs@.len(),
                            forall|y: usize| #[trigger] next@.contains(y) <==> (before.contains(y)
                                || exists|q: int| 0 <= q < j && nbrs@[q] == y),
                        decreases nbrs@.len() - j,
                    {
                        let ghost nb0 = next@;
                        crate::sorted::ids_insert(&mut next, nbrs[j]);
                        assert forall|y: usize| #[trigger] next@.contains(y) <==> (before.contains(y)
                            || exists|q: int| 0 <= q < j + 1 && nbrs@[q] == y) by {
                            if exists|q: int| 0 <= q < j + 1 && nbrs@[q] == y {
                                let q = choose|q: int| 0 <= q < j + 1 && nbrs@[q] == y;
                                if q < j { assert(nb0.contains(y)); }
                            }
                        }
                        j = j + 1;
                    }
                    assert forall|y: usize| #[trigger] next@.contains(y) <==> (r.contains(y)
                        || exists|q: int| 0 <= q < k + 1 && m.adjacent(visited@[q], y)) by {
                        if exists|q: int| 0 <= q < k + 1 && m.adjacent(visited@[q], y) {
                            let q = choose|q: int| 0 <= q < k + 1 && m.adjacent(visited@[q], y);
                            if q < k {
                                assert(before.contains(y));
                            } else {
                                assert(nbrs@.contains(y));
                                let t = choose|t: int| 0 <= t < nbrs@.len() && nbrs@[t] == y;
                            }
                        }
                        if next@.contains(y) && !before.contains(y) {
                            let t = choose|t: int| 0 <= t < nbrs@.len() && nbrs@[t] == y;
                            assert(nbrs@.contains(y));
                            assert(m.adjacent(visited@[k as int], y));
                        }
                    }
                },
                None => {
                    assert forall|y: usize| !m.adjacent(x, y) by {
                        if m.edges.contains((x, y)) { assert(m.vertices.contains(x)); }
                        if m.edges.contains((y, x)) { assert(m.vertices.contains(x)); }
                    }
                },
            }
            k = k + 1;
        }
        let ghost r1 = reach(m, u, (d + 1) as nat);
        assert(r1 == r.union(Set::new(|w: VertexID| exists|x: VertexID| r.contains(x) && m.adjacent(x, w))));
        assert forall|y: usize| next@.contains(y) <==> #[trigger] r1.contains(y) by {
            if next@.contains(y) && !r.contains(y) {
                let q = choose|q: int| 0 <= q < visited@.len() && m.adjacent(visited@[q], y);
                assert(visited@.contains(visited@[q]));
                assert(r.contains(visited@[q]));
            }
            if r1.contains(y) && !r.contains(y) {
                let x = choose|x: VertexID| r.contains(x) && m.adjacent(x, y);
                assert(visited@.contains(x));
                let q = choose|q: int| 0 <= q < visited@.len() && visited@[q] == x;
                assert(m.adjacent(visited@[q], y));
            }
        }
        visited = next;
        d = d + 1;
    }
}

} // verus!
