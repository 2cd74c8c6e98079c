//! Operations that build a new graph from existing ones: induced and edge
//! subgraphs, complement, disjoint union (merge), join and product.
use vstd::prelude::*;
use crate::graph::{GraphTrait, SimpleGraph, VertexID, EdgeID};
use crate::sorted::{lemma_push_contains, ids_sorted};
use std::collections::HashMap;
use crate::labeled::HashMapLabeledGraph;

verus! {

broadcast use vstd::std_specs::hash::group_hash_axioms;

/// Where each vertex of an operand went in the result of an operation.
pub type VertexMap = HashMap<VertexID, VertexID>;

/// The subgraph induced by `vertices`: those vertices, and every edge of `g`
/// between two of them.
pub fn subgraph_vertex<G: GraphTrait>(g: &G, vertices: &Vec<VertexID>) -> (h: G)
    requires
        g.model().wf(),
    ensures
        h.model().wf(),
        forall|u: usize| #[trigger] h.model().vertices.contains(u) <==> vertices@.contains(u),
        forall|p: EdgeID| #[trigger] h.model().edges.contains(p) <==> exists|k: int| 0 <= k < g.model().edges.len()
            && vertices@.contains(g.model().edges[k].0) && vertices@.contains(g.model().edges[k].1)
            && p == G::edge_key(#[trigger] g.model().edges[k]),
{
    let mut h = G::new();
    let mut i: usize = 0;
    while i < vertices.len()
        invariant
            h.model().wf(),
            h.model().edges.len() == 0,
            i <= vertices@.len(),
            forall|u: usize| #[trigger] h.model().vertices.contains(u) <==> vertices@.subrange(0, i as int).contains(u),
        decreases vertices@.len() - i,
    {
        let v = vertices[i];
        assert(vertices@.subrange(0, i + 1) == vertices@.subrange(0, i as int).push(v));
        proof { lemma_push_contains(vertices@.subrange(0, i as int), v); }
        h.add_vertex(v);
        i = i + 1;
    }
    assert(vertices@.subrange(0, vertices@.len() as int) == vertices@);
    let edges = g.edges();
    let mut j: usize = 0;
    while j < edges.len()
        invariant
            g.model().wf(),
            h.model().wf(),
            edges@ == g.model().edges,
            j <= edges@.len(),
            forall|u: usize| #[trigger] h.model().vertices.contains(u) <==> vertices@.contains(u),
            forall|p: EdgeID| #[trigger] h.model().edges.contains(p) <==> exists|k: int| 0 <= k < j
                && vertices@.contains(edges@[k].0) && vertices@.contains(edges@[k].1)
                && p == G::edge_key(#[trigger] edges@[k]),
        decreases edges@.len() - j,
    {
        let e = edges[j];
        let ghost before = h.model().edges;
        if h.contains(e.0) && h.contains(e.1) {
            h.add_edge(e);
        }
        assert forall|p: EdgeID| #[trigger] h.model().edges.contains(p) <==> exists|k: int| 0 <= k < j + 1
            && vertices@.contains(edges@[k].0) && vertices@.contains(edges@[k].1)
            && p == G::edge_key(#[trigger] edges@[k]) by {
            if exists|k: int| 0 <= k < j + 1 && vertices@.contains(edges@[k].0) && vertices@.contains(edges@[k].1) && p == G::edge_key(#[trigger] edges@[k]) {
                let k = choose|k: int| 0 <= k < j + 1 && vertices@.contains(edges@[k].0) && vertices@.contains(edges@[k].1) && p == G::edge_key(#[trigger] edges@[k]);
                if k < j {
                    assert(before.contains(p));
                }
            }
        }
        j = j + 1;
    }
    h
}

/// The subgraph of the listed edges that `g` has, with their ends.
pub fn subgraph_edges<G: GraphTrait>(g: &G, edges: &Vec<EdgeID>) -> (h: G)
    requires
        g.model().wf(),
    ensures
        h.model().wf(),
        forall|u: usize| #[trigger] h.model().vertices.contains(u) <==> exists|k: int| 0 <= k < edges@.len()
            && g.model().edges.contains(G::edge_key(#[trigger] edges@[k])) && (edges@[k].0 == u || edges@[k].1 == u),
        forall|p: EdgeID| #[trigger] h.model().edges.contains(p) <==> exists|k: int| 0 <= k < edges@.len()
            && g.model().edges.contains(G::edge_key(#[trigger] edges@[k])) && p == G::edge_key(edges@[k]),
{
    let mut h = G::new();
    let mut j: usize = 0;
    while j < edges.len()
        invariant
            g.model().wf(),
            h.model().wf(),
            j <= edges@.len(),
            forall|u: usize| #[trigger] h.model().vertices.contains(u) <==> exists|k: int| 0 <= k < j
                && g.model().edges.contains(G::edge_key(#[trigger] edges@[k])) && (edges@[k].0 == u || edges@[k].1 == u),
            forall|p: EdgeID| #[trigger] h.model().edges.contains(p) <==> exists|k: int| 0 <= k < j
                && g.model().edges.contains(G::edge_key(#[trigger] edges@[k])) && p == G::edge_key(edges@[k]),
        decreases edges@.len() - j,
    {
        let e = edges[j];
        let ghost vb = h.model().vertices;
        let ghost eb = h.model().edges;
        if g.has_edge(e) {
            h.add_edge(e);
        }
        assert forall|u: usize| #[trigger] h.model().vertices.contains(u) <==> exists|k: int| 0 <= k < j + 1
            && g.model().edges.contains(G::edge_key(#[trigger] edges@[k])) && (edges@[k].0 == u || edges@[k].1 == u) by {
            if exists|k: int| 0 <= k < j + 1 && g.model().edges.contains(G::edge_key(#[trigger] edges@[k])) && (edges@[k].0 == u || edges@[k].1 == u) {
                let k = choose|k: int| 0 <= k < j + 1 && g.model().edges.contains(G::edge_key(#[trigger] edges@[k])) && (edges@[k].0 == u || edges@[k].1 == u);
                if k < j {
                    assert(vb.contains(u));
                }
            }
        }
        assert forall|p: EdgeID| #[trigger] h.model().edges.contains(p) <==> exists|k: int| 0 <= k < j + 1
            && g.model().edges.contains(G::edge_key(#[trigger] edges@[k])) && p == G::edge_key(edges@[k]) by {
            if exists|k: int| 0 <= k < j + 1 && g.model().edges.contains(G::edge_key(#[trigger] edges@[k])) && p == G::edge_key(edges@[k]) {
                let k = choose|k: int| 0 <= k < j + 1 && g.model().edges.contains(G::edge_key(#[trigger] edges@[k])) && p == G::edge_key(edges@[k]);
                if k < j {
                    assert(eb.contains(p));
                }
            }
        }
        j = j + 1;
    }
    h
}

/// The complement: the same vertices, and an edge between two distinct
/// vertices wherever `g` has none (loops are left out).
pub fn complement<G: GraphTrait>(g: &G) -> (h: G)
    requires
        g.model().wf(),
    ensures
        h.model().wf(),
        forall|u: usize| #[trigger] h.model().vertices.contains(u) <==> g.model().vertices.contains(u),
        forall|p: EdgeID| #[trigger] h.model().edges.contains(p) <==> exists|a: usize, b: usize|
            g.model().vertices.contains(a) && g.model().vertices.contains(b) && a != b
            && !g.model().edges.contains(G::edge_key((a, b))) && p == #[trigger] G::edge_key((a, b)),
{
    let verts = g.vertices();
    let n = verts.len();
    let mut h = G::new();
    let mut k: usize = 0;
    while k < n
        invariant
            h.model().wf(),
            h.model().edges.len() == 0,
            n == verts@.len(),
            k <= n,
            forall|u: usize| #[trigger] h.model().vertices.contains(u) <==> verts@.subrange(0, k as int).contains(u),
        decreases n - k,
    {
        let v = verts[k];
        assert(verts@.subrange(0, k + 1) == verts@.subrange(0, k as int).push(v));
        proof { lemma_push_contains(verts@.subrange(0, k as int), v); }
        h.add_vertex(v);
        k = k + 1;
    }
    assert(verts@.subrange(0, n as int) == verts@);
    assert forall|p: EdgeID| !#[trigger] h.model().edges.contains(p) by {}
    let mut i: usize = 0;
    while i < n
        invariant
            g.model().wf(),
            h.model().wf(),
            verts@ == g.model().vertices,
            n == verts@.len(),
            i <= n,
            forall|u: usize| #[trigger] h.model().vertices.contains(u) <==> verts@.contains(u),
            forall|p: EdgeID| #[trigger] h.model().edges.contains(p) <==> exists|x: int, y: int|
                0 <= x < i && 0 <= y < n && verts@[x] != verts@[y]
                && !g.model().edges.contains(G::edge_key((verts@[x], verts@[y]))) && p == #[trigger] G::edge_key((verts@[x], verts@[y])),
        decreases n - i,
    {
        let v1 = verts[i];
        let ghost eb0 = h.model().edges;
        let mut j: usize = 0;
        while j < n
            invariant
                g.model().wf(),
                h.model().wf(),
                verts@ == g.model().vertices,
                n == verts@.len(),
                i < n,
                j <= n,
                v1 == verts@[i as int],
                forall|u: usize| #[trigger] h.model().vertices.contains(u) <==> verts@.contains(u),
                forall|p: EdgeID| #[trigger] h.model().edges.contains(p) <==> (eb0.contains(p) || exists|y: int|
                    0 <= y < j && v1 != verts@[y]
                    && !g.model().edges.contains(G::edge_key((v1, verts@[y]))) && p == #[trigger] G::edge_key((v1, verts@[y]))),
            decreases n - j,
        {
            let v2 = verts[j];
            let ghost eb = h.model().edges;
            if v1 != v2 && !g.has_edge((v1, v2)) {
                assert(verts@.contains(v2));
                h.add_edge((v1, v2));
            }
            assert forall|p: EdgeID| #[trigger] h.model().edges.contains(p) <==> (eb0.contains(p) || exists|y: int|
                0 <= y < j + 1 && v1 != verts@[y]
                && !g.model().edges.contains(G::edge_key((v1, verts@[y]))) && p == #[trigger] G::edge_key((v1, verts@[y]))) by {
                if exists|y: int| 0 <= y < j + 1 && v1 != verts@[y] && !g.model().edges.contains(G::edge_key((v1, verts@[y]))) && p == #[trigger] G::edge_key((v1, verts@[y])) {
                    let y = choose|y: int| 0 <= y < j + 1 && v1 != verts@[y] && !g.model().edges.contains(G::edge_key((v1, verts@[y]))) && p == #[trigger] G::edge_key((v1, verts@[y]));
                    if y < j {
                        assert(eb.contains(p));
                    }
                }
            }
            j = j + 1;
        }
        assert forall|p: EdgeID| #[trigger] h.model().edges.contains(p) <==> exists|x: int, y: int|
            0 <= x < i + 1 && 0 <= y < n && verts@[x] != verts@[y]
            && !g.model().edges.contains(G::edge_key((verts@[x], verts@[y]))) && p == #[trigger] G::edge_key((verts@[x], verts@[y])) by {
            if exists|x: int, y: int| 0 <= x < i + 1 && 0 <= y < n && verts@[x] != verts@[y] && !g.model().edges.contains(G::edge_key((verts@[x], verts@[y]))) && p == #[trigger] G::edge_key((verts@[x], verts@[y])) {
                let (x, y) = choose|x: int, y: int| 0 <= x < i + 1 && 0 <= y < n && verts@[x] != verts@[y] && !g.model().edges.contains(G::edge_key((verts@[x], verts@[y]))) && p == #[trigger] G::edge_key((verts@[x], verts@[y]));
                if x < i {
                    assert(eb0.contains(p));
                }
            }
        }
        i = i + 1;
    }
    assert forall|p: EdgeID| #[trigger] h.model().edges.contains(p) <==> exists|a: usize, b: usize|
        g.model().vertices.contains(a) && g.model().vertices.contains(b) && a != b
        && !g.model().edges.contains(G::edge_key((a, b))) && p == #[trigger] G::edge_key((a, b)) by {
        if h.model().edges.contains(p) {
            let (x, y) = choose|x: int, y: int| 0 <= x < n && 0 <= y < n && verts@[x] != verts@[y] && !g.model().edges.contains(G::edge_key((verts@[x], verts@[y]))) && p == #[trigger] G::edge_key((verts@[x], verts@[y]));
            assert(g.model().vertices.contains(verts@[x]));
            assert(g.model().vertices.contains(verts@[y]));
        }
        if exists|a: usize, b: usize| g.model().vertices.contains(a) && g.model().vertices.contains(b) && a != b && !g.model().edges.contains(G::edge_key((a, b))) && p == #[trigger] G::edge_key((a, b)) {
            let (a, b) = choose|a: usize, b: usize| g.model().vertices.contains(a) && g.model().vertices.contains(b) && a != b && !g.model().edges.contains(G::edge_key((a, b))) && p == #[trigger] G::edge_key((a, b));
            let x = choose|x: int| 0 <= x < n && verts@[x] == a;
            let y = choose|y: int| 0 <= y < n && verts@[y] == b;
            assert(p == G::edge_key((verts@[x], verts@[y])));
        }
    }
    h
}

/// Maps the `k`-th vertex of `vs` to `offset + k`.
fn index_map(vs: &Vec<VertexID>, offset: usize) -> (m: VertexMap)
    requires
        ids_sorted(vs@),
        offset + vs@.len() <= usize::MAX,
    ensures
        forall|x: usize| #[trigger] m@.contains_key(x) <==> vs@.contains(x),
        forall|k: int| 0 <= k < vs@.len() ==> #[trigger] m@[vs@[k]] == offset + k,
{
    let mut m: VertexMap = HashMap::new();
    let mut i: usize = 0;
    while i < vs.len()
        invariant
            ids_sorted(vs@),
            offset + vs@.len() <= usize::MAX,
            i <= vs@.len(),
            forall|x: usize| #[trigger] m@.contains_key(x) <==> vs@.subrange(0, i as int).contains(x),
            forall|k: int| 0 <= k < i ==> #[trigger] m@[vs@[k]] == offset + k,
        decreases vs@.len() - i,
    {
        let v = vs[i];
        assert(vs@.subrange(0, i + 1) == vs@.subrange(0, i as int).push(v));
        proof { lemma_push_contains(vs@.subrange(0, i as int), v); }
        m.insert(v, offset + i);
        assert forall|k: int| 0 <= k < i + 1 implies #[trigger] m@[vs@[k]] == offset + k by {
            if k < i {
                assert(vs@[k] < vs@[i as int]);
            }
        }
        i = i + 1;
    }
    assert(vs@.subrange(0, vs@.len() as int) == vs@);
    m
}

/// A graph on the vertices `0 .. n`, without edges.
fn numbered<G: GraphTrait>(n: usize) -> (h: G)
    ensures
        h.model().wf(),
        h.model().edges.len() == 0,
        forall|u: usize| #[trigger] h.model().vertices.contains(u) <==> u < n,
{
    let mut h = G::new();
    let mut i: usize = 0;
    while i < n
        invariant
            h.model().wf(),
            h.model().edges.len() == 0,
            i <= n,
            forall|u: usize| #[trigger] h.model().vertices.contains(u) <==> u < i,
        decreases n - i,
    {
        h.add_vertex(i);
        i = i + 1;
    }
    h
}

/// Adds, for each edge `(x, y)` of `edges`, the edge `(map[x], map[y])`.
fn add_mapped_edges<G: GraphTrait>(h: &mut G, edges: &Vec<EdgeID>, map: &VertexMap)
    requires
        old(h).model().wf(),
        forall|k: int| 0 <= k < edges@.len() ==> map@.contains_key(#[trigger] edges@[k].0) && map@.contains_key(edges@[k].1),
        forall|k: int| 0 <= k < edges@.len() ==> old(h).model().vertices.contains(map@[#[trigger] edges@[k].0]) && old(h).model().vertices.contains(map@[edges@[k].1]),
    ensures
        final(h).model().wf(),
        final(h).model().vertices == old(h).model().vertices,
        forall|p: EdgeID| #[trigger] final(h).model().edges.contains(p) <==> (old(h).model().edges.contains(p)
            || exists|k: int| 0 <= k < edges@.len() && p == G::edge_key((map@[#[trigger] edges@[k].0], map@[edges@[k].1]))),
{
    let mut j: usize = 0;
    while j < edges.len()
        invariant
            h.model().wf(),
            h.model().vertices == old(h).model().vertices,
            j <= edges@.len(),
            forall|k: int| 0 <= k < edges@.len() ==> map@.contains_key(#[trigger] edges@[k].0) && map@.contains_key(edges@[k].1),
            forall|k: int| 0 <= k < edges@.len() ==> old(h).model().vertices.contains(map@[#[trigger] edges@[k].0]) && old(h).model().vertices.contains(map@[edges@[k].1]),
            forall|p: EdgeID| #[trigger] h.model().edges.contains(p) <==> (old(h).model().edges.contains(p)
                || exists|k: int| 0 <= k < j && p == G::edge_key((map@[#[trigger] edges@[k].0], map@[edges@[k].1]))),
        decreases edges@.len() - j,
    {
        let e = edges[j];
        assert(map@.contains_key(edges@[j as int].0));
        let a = *map.get(&e.0).unwrap();
        let b = *map.get(&e.1).unwrap();
        let ghost vb = h.model().vertices;
        let ghost eb = h.model().edges;
        h.add_edge((a, b));
        proof {
            crate::graph::lemma_sorted_ids_unique(h.model().vertices, vb);
        }
        assert forall|p: EdgeID| #[trigger] h.model().edges.contains(p) <==> (old(h).model().edges.contains(p)
            || exists|k: int| 0 <= k < j + 1 && p == G::edge_key((map@[#[trigger] edges@[k].0], map@[edges@[k].1]))) by {
            if exists|k: int| 0 <= k < j + 1 && p == G::edge_key((map@[#[trigger] edges@[k].0], map@[edges@[k].1])) {
                let k = choose|k: int| 0 <= k < j + 1 && p == G::edge_key((map@[#[trigger] edges@[k].0], map@[edges@[k].1]));
                if k < j {
                    assert(eb.contains(p));
                }
            }
        }
        j = j + 1;
    }
}

/// The disjoint union of two graphs: the vertices of `a` become `0 .. |a|`
/// and those of `b` follow, in ascending order; each operand's edges are
/// carried over through its map.
pub fn merge<G: GraphTrait>(a: &G, b: &G) -> (r: (G, VertexMap, VertexMap))
    requires
        a.model().wf(),
        b.model().wf(),
        a.model().vertices.len() + b.model().vertices.len() <= usize::MAX,
    ensures
        r.0.model().wf(),
        forall|u: usize| #[trigger] r.0.model().vertices.contains(u) <==> u < a.model().vertices.len() + b.model().vertices.len(),
        forall|x: usize| #[trigger] r.1@.contains_key(x) <==> a.model().vertices.contains(x),
        forall|k: int| 0 <= k < a.model().vertices.len() ==> #[trigger] r.1@[a.model().vertices[k]] == k,
        forall|x: usize| #[trigger] r.2@.contains_key(x) <==> b.model().vertices.contains(x),
        forall|k: int| 0 <= k < b.model().vertices.len() ==> #[trigger] r.2@[b.model().vertices[k]] == a.model().vertices.len() + k,
        forall|p: EdgeID| #[trigger] r.0.model().edges.contains(p) <==> (
            (exists|k: int| 0 <= k < a.model().edges.len() && p == G::edge_key((r.1@[#[trigger] a.model().edges[k].0], r.1@[a.model().edges[k].1])))
            || (exists|k: int| 0 <= k < b.model().edges.len() && p == G::edge_key((r.2@[#[trigger] b.model().edges[k].0], r.2@[b.model().edges[k].1])))),
{
    let va = a.vertices();
    let vb = b.vertices();
    let na = va.len();
    let nb = vb.len();
    let mut h: G = numbered(na + nb);
    let self_map = index_map(&va, 0);
    let other_map = index_map(&vb, na);
    let ea = a.edges();
    let eb = b.edges();
    assert forall|k: int| 0 <= k < ea@.len() implies self_map@.contains_key(#[trigger] ea@[k].0) && self_map@.contains_key(ea@[k].1) by {
        assert(a.model().edges.contains(ea@[k]));
    }
    assert forall|k: int| 0 <= k < ea@.len() implies h.model().vertices.contains(self_map@[#[trigger] ea@[k].0]) && h.model().vertices.contains(self_map@[ea@[k].1]) by {
        assert(a.model().edges.contains(ea@[k]));
        let x = choose|x: int| 0 <= x < va@.len() && va@[x] == ea@[k].0;
        let y = choose|y: int| 0 <= y < va@.len() && va@[y] == ea@[k].1;
        assert(self_map@[va@[x]] == x);
        assert(self_map@[va@[y]] == y);
    }
    let ghost before = h.model().edges;
    add_mapped_edges(&mut h, &ea, &self_map);
    assert forall|k: int| 0 <= k < eb@.len() implies other_map@.contains_key(#[trigger] eb@[k].0) && other_map@.contains_key(eb@[k].1) by {
        assert(b.model().edges.contains(eb@[k]));
    }
    assert forall|k: int| 0 <= k < eb@.len() implies h.model().vertices.contains(other_map@[#[trigger] eb@[k].0]) && h.model().vertices.contains(other_map@[eb@[k].1]) by {
        assert(b.model().edges.contains(eb@[k]));
        let x = choose|x: int| 0 <= x < vb@.len() && vb@[x] == eb@[k].0;
        let y = choose|y: int| 0 <= y < vb@.len() && vb@[y] == eb@[k].1;
        assert(other_map@[vb@[x]] == na + x);
        assert(other_map@[vb@[y]] == na + y);
    }
    add_mapped_edges(&mut h, &eb, &other_map);
    assert(forall|p: EdgeID| !before.contains(p));
    (h, self_map, other_map)
}

/// The join of two undirected graphs: their disjoint union (as `merge` builds
/// it) plus an edge from every vertex of `a` to every vertex of `b`.
pub fn join<G: SimpleGraph>(a: &G, b: &G) -> (r: (G, VertexMap, VertexMap))
    requires
        a.model().wf(),
        b.model().wf(),
        a.model().vertices.len() + b.model().vertices.len() <= usize::MAX,
    ensures
        r.0.model().wf(),
        forall|u: usize| #[trigger] r.0.model().vertices.contains(u) <==> u < a.model().vertices.len() + b.model().vertices.len(),
        forall|x: usize| #[trigger] r.1@.contains_key(x) <==> a.model().vertices.contains(x),
        forall|k: int| 0 <= k < a.model().vertices.len() ==> #[trigger] r.1@[a.model().vertices[k]] == k,
        forall|x: usize| #[trigger] r.2@.contains_key(x) <==> b.model().vertices.contains(x),
        forall|k: int| 0 <= k < b.model().vertices.len() ==> #[trigger] r.2@[b.model().vertices[k]] == a.model().vertices.len() + k,
        forall|p: EdgeID| #[trigger] r.0.model().edges.contains(p) <==> (
            (exists|k: int| 0 <= k < a.model().edges.len() && p == G::edge_key((r.1@[#[trigger] a.model().edges[k].0], r.1@[a.model().edges[k].1])))
            || (exists|k: int| 0 <= k < b.model().edges.len() && p == G::edge_key((r.2@[#[trigger] b.model().edges[k].0], r.2@[b.model().edges[k].1])))
            || (exists|i: usize, j: usize| i < a.model().vertices.len() && a.model().vertices.len() <= j < a.model().vertices.len() + b.model().vertices.len()
                && p == #[trigger] G::edge_key((i, j)))),
{
    let (mut h, self_map, other_map) = merge(a, b);
    let na = a.vertex_count();
    let nb = b.vertex_count();
    let ghost merged = h.model().edges;
    let mut i: usize = 0;
    while i < na
        invariant
            h.model().wf(),
            na == a.model().vertices.len(),
            nb == b.model().vertices.len(),
            na + nb <= usize::MAX,
            i <= na,
            forall|u: usize| #[trigger] h.model().vertices.contains(u) <==> u < na + nb,
            forall|p: EdgeID| #[trigger] h.model().edges.contains(p) <==> (merged.contains(p)
                || exists|x: usize, y: usize| x < i && na <= y < na + nb && p == #[trigger] G::edge_key((x, y))),
        decreases na - i,
    {
        let ghost row_start = h.model().edges;
        let mut j: usize = na;
        while j < na + nb
            invariant
                h.model().wf(),
                na + nb <= usize::MAX,
                i < na,
                na <= j <= na + nb,
                forall|u: usize| #[trigger] h.model().vertices.contains(u) <==> u < na + nb,
                forall|p: EdgeID| #[trigger] h.model().edges.contains(p) <==> (row_start.contains(p)
                    || exists|y: usize| na <= y < j && p == #[trigger] G::edge_key((i, y))),
            decreases na + nb - j,
        {
            let ghost eb = h.model().edges;
            h.add_edge((i, j));
            assert forall|p: EdgeID| #[trigger] h.model().edges.contains(p) <==> (row_start.contains(p)
                || exists|y: usize| na <= y < j + 1 && p == #[trigger] G::edge_key((i, y))) by {
                if exists|y: usize| na <= y < j + 1 && p == #[trigger] G::edge_key((i, y)) {
                    let y = choose|y: usize| na <= y < j + 1 && p == #[trigger] G::edge_key((i, y));
                    if y < j {
                        assert(eb.contains(p));
                    }
                }
            }
            j = j + 1;
        }
        assert forall|p: EdgeID| #[trigger] h.model().edges.contains(p) <==> (merged.contains(p)
            || exists|x: usize, y: usize| x < i + 1 && na <= y < na + nb && p == #[trigger] G::edge_key((x, y))) by {
            if exists|x: usize, y: usize| x < i + 1 && na <= y < na + nb && p == #[trigger] G::edge_key((x, y)) {
                let (x, y) = choose|x: usize, y: usize| x < i + 1 && na <= y < na + nb && p == #[trigger] G::edge_key((x, y));
                if x < i {
                    assert(row_start.contains(p));
                } else {
                    assert(p == G::edge_key((i, y)));
                }
            }
            if row_start.contains(p) && !merged.contains(p) {
                let (x, y) = choose|x: usize, y: usize| x < i && na <= y < na + nb && p == #[trigger] G::edge_key((x, y));
                assert(x < i + 1);
            }
        }
        i = i + 1;
    }
    (h, self_map, other_map)
}

/// Whether `p` is stored for the copy, in row `j` of the product, of an
/// edge of `a` (an edge between the `i1`-th and `i2`-th vertices of `a`).
pub open spec fn product_left<G: GraphTrait>(va: Seq<usize>, ea: Seq<(usize, usize)>, nb: int, p: EdgeID) -> bool {
    exists|k: int, j: int, i1: int, i2: int| 0 <= k < ea.len() && 0 <= j < nb && 0 <= i1 < va.len() && 0 <= i2 < va.len()
        && va[i1] == (#[trigger] ea[k]).0 && va[i2] == ea[k].1 && p == #[trigger] G::edge_key(((i1 * nb + j) as usize, (i2 * nb + j) as usize))
}

/// Whether `p` is stored for the copy, in column `i` of the product, of an
/// edge of `b` (an edge between the `j1`-th and `j2`-th vertices of `b`).
pub open spec fn product_right<G: GraphTrait>(vb: Seq<usize>, eb: Seq<(usize, usize)>, na: int, p: EdgeID) -> bool {
    exists|k: int, i: int, j1: int, j2: int| 0 <= k < eb.len() && 0 <= i < na && 0 <= j1 < vb.len() && 0 <= j2 < vb.len()
        && vb[j1] == (#[trigger] eb[k]).0 && vb[j2] == eb[k].1 && p == #[trigger] G::edge_key(((i * vb.len() + j1) as usize, (i * vb.len() + j2) as usize))
}

proof fn lemma_product_index(i: int, j: int, na: int, nb: int)
    requires
        0 <= i < na,
        0 <= j < nb,
    ensures
        0 <= i * nb + j < na * nb,
{
    assert(i * nb + j < na * nb) by (nonlinear_arith)
        requires
            0 <= i < na,
            0 <= j < nb,
    ;
    assert(0 <= i * nb) by (nonlinear_arith)
        requires
            0 <= i,
            0 <= j < nb,
    ;
}

/// The vertex of the product that stands for the pair `k`: `i * |right| + j`
/// where `k` is the `i`-th vertex of `left` and the `j`-th of `right`.
pub open spec fn product_vertex(left: Seq<usize>, right: Seq<usize>, k: EdgeID) -> Option<usize> {
    if exists|i: int, j: int| 0 <= i < left.len() && 0 <= j < right.len() && left[i] == k.0 && right[j] == k.1 {
        let (i, j) = choose|i: int, j: int| 0 <= i < left.len() && 0 <= j < right.len() && left[i] == k.0 && right[j] == k.1;
        Some((i * right.len() + j) as usize)
    } else {
        None
    }
}

/// Which vertex of a product stands for each pair of factor vertices.
#[derive(Debug)]
pub struct ProductMap {
    left: Vec<VertexID>,
    right: Vec<VertexID>,
}

impl ProductMap {
    /// The vertices of the two factors, ascending.
    pub closed spec fn factors(&self) -> (Seq<usize>, Seq<usize>) {
        (self.left@, self.right@)
    }

    /// The product vertex of the pair `k`, if both are factor vertices.
    pub fn get(&self, k: &EdgeID) -> (r: Option<VertexID>)
        requires
            ids_sorted(self.factors().0),
            ids_sorted(self.factors().1),
            self.factors().0.len() * self.factors().1.len() <= usize::MAX,
        ensures
            r == product_vertex(self.factors().0, self.factors().1, *k),
    {
        let i = crate::sorted::id_index(&self.left, k.0);
        let j = crate::sorted::id_index(&self.right, k.1);
        match (i, j) {
            (Some(i), Some(j)) => {
                let ghost l = self.left@;
                let ghost rt = self.right@;
                proof {
                    lemma_product_index(i as int, j as int, l.len() as int, rt.len() as int);
                    let (i2, j2) = choose|i2: int, j2: int| 0 <= i2 < l.len() && 0 <= j2 < rt.len() && l[i2] == k.0 && rt[j2] == k.1;
                    if i2 != i { if i2 < i { assert(l[i2] < l[i as int]); } else { assert(l[i as int] < l[i2]); } }
                    if j2 != j { if j2 < j { assert(rt[j2] < rt[j as int]); } else { assert(rt[j as int] < rt[j2]); } }
                }
                Some(i * self.right.len() + j)
            },
            _ => None,
        }
    }
}

/// The Cartesian product of two undirected graphs: the vertex `i * |b| + j`
/// stands for the `i`-th vertex of `a` and the `j`-th of `b` (ascending
/// order); each edge of `a` is copied into every row and each edge of `b`
/// into every column. `map` gives the vertex of each pair.
pub fn product<G: SimpleGraph>(a: &G, b: &G) -> (r: (G, ProductMap))
    requires
        a.model().wf(),
        b.model().wf(),
        a.model().vertices.len() * b.model().vertices.len() <= usize::MAX,
    ensures
        r.0.model().wf(),
        forall|u: usize| #[trigger] r.0.model().vertices.contains(u) <==> u < a.model().vertices.len() * b.model().vertices.len(),
        r.1.factors() == (a.model().vertices, b.model().vertices),
        forall|p: EdgeID| #[trigger] r.0.model().edges.contains(p) <==> (
            product_left::<G>(a.model().vertices, a.model().edges, b.model().vertices.len() as int, p)
            || product_right::<G>(b.model().vertices, b.model().edges, a.model().vertices.len() as int, p)),
{
    let va = a.vertices();
    let vb = b.vertices();
    let na = va.len();
    let nb = vb.len();
    let total = na * nb;
    let map = ProductMap { left: va.clone(), right: vb.clone() };
    let sm = index_map(&va, 0);
    let om = index_map(&vb, 0);
    let mut h: G = numbered(total);
    let ea = a.edges();
    let eb = b.edges();
    let ghost am = a.model();
    let ghost bm = b.model();
    assert(forall|p: EdgeID| !#[trigger] h.model().edges.contains(p));
    let mut k: usize = 0;
    while k < ea.len()
        invariant
            h.model().wf(),
            am == a.model(),
            am.wf(),
            va@ == am.vertices,
            ea@ == am.edges,
            na == va@.len(),
            nb == vb@.len(),
            total == na * nb,
            k <= ea@.len(),
            forall|x: usize| #[trigger] sm@.contains_key(x) <==> va@.contains(x),
            forall|q: int| 0 <= q < va@.len() ==> #[trigger] sm@[va@[q]] == q,
            forall|u: usize| #[trigger] h.model().vertices.contains(u) <==> u < total,
            forall|p: EdgeID| #[trigger] h.model().edges.contains(p) <==> exists|kk: int, j: int, i1: int, i2: int| 0 <= kk < k && 0 <= j < nb && 0 <= i1 < na && 0 <= i2 < na
                && va@[i1] == (#[trigger] ea@[kk]).0 && va@[i2] == ea@[kk].1 && p == #[trigger] G::edge_key(((i1 * nb + j) as usize, (i2 * nb + j) as usize)),
        decreases ea@.len() - k,
    {
        let e = ea[k];
        assert(am.edges.contains(e));
        let i1 = *sm.get(&e.0).unwrap();
        let i2 = *sm.get(&e.1).unwrap();
        let ghost q1 = choose|q: int| 0 <= q < va@.len() && va@[q] == e.0;
        let ghost q2 = choose|q: int| 0 <= q < va@.len() && va@[q] == e.1;
        assert(i1 == q1 && i2 == q2);
        let ghost row0 = h.model().edges;
        let mut o: usize = 0;
        while o < nb
            invariant
                h.model().wf(),
                na == va@.len(),
                nb == vb@.len(),
                total == na * nb,
                k < ea@.len(),
                e == ea@[k as int],
                0 <= i1 < na && 0 <= i2 < na,
                va@[i1 as int] == e.0 && va@[i2 as int] == e.1,
                o <= nb,
                forall|u: usize| #[trigger] h.model().vertices.contains(u) <==> u < total,
                forall|p: EdgeID| #[trigger] h.model().edges.contains(p) <==> (row0.contains(p)
                    || exists|j: int| 0 <= j < o && p == #[trigger] G::edge_key(((i1 * nb + j) as usize, (i2 * nb + j) as usize))),
            decreases nb - o,
        {
            proof {
                lemma_product_index(i1 as int, o as int, na as int, nb as int);
                lemma_product_index(i2 as int, o as int, na as int, nb as int);
            }
            let x = i1 * nb + o;
            let y = i2 * nb + o;
            let ghost eb0 = h.model().edges;
            let ghost vb0 = h.model().vertices;
            h.add_edge((x, y));
            proof { crate::graph::lemma_sorted_ids_unique(h.model().vertices, vb0); }
            assert forall|p: EdgeID| #[trigger] h.model().edges.contains(p) <==> (row0.contains(p)
                || exists|j: int| 0 <= j < o + 1 && p == #[trigger] G::edge_key(((i1 * nb + j) as usize, (i2 * nb + j) as usize))) by {
                if exists|j: int| 0 <= j < o + 1 && p == #[trigger] G::edge_key(((i1 * nb + j) as usize, (i2 * nb + j) as usize)) {
                    let j = choose|j: int| 0 <= j < o + 1 && p == #[trigger] G::edge_key(((i1 * nb + j) as usize, (i2 * nb + j) as usize));
                    if j < o {
                        assert(eb0.contains(p));
                    }
                }
            }
            o = o + 1;
        }
        assert forall|p: EdgeID| #[trigger] h.model().edges.contains(p) <==> exists|kk: int, j: int, j1: int, j2: int| 0 <= kk < k + 1 && 0 <= j < nb && 0 <= j1 < na && 0 <= j2 < na
            && va@[j1] == (#[trigger] ea@[kk]).0 && va@[j2] == ea@[kk].1 && p == #[trigger] G::edge_key(((j1 * nb + j) as usize, (j2 * nb + j) as usize)) by {
            if exists|kk: int, j: int, j1: int, j2: int| 0 <= kk < k + 1 && 0 <= j < nb && 0 <= j1 < na && 0 <= j2 < na
                && va@[j1] == (#[trigger] ea@[kk]).0 && va@[j2] == ea@[kk].1 && p == #[trigger] G::edge_key(((j1 * nb + j) as usize, (j2 * nb + j) as usize)) {
                let (kk, j, j1, j2) = choose|kk: int, j: int, j1: int, j2: int| 0 <= kk < k + 1 && 0 <= j < nb && 0 <= j1 < na && 0 <= j2 < na
                    && va@[j1] == (#[trigger] ea@[kk]).0 && va@[j2] == ea@[kk].1 && p == #[trigger] G::edge_key(((j1 * nb + j) as usize, (j2 * nb + j) as usize));
                if kk < k {
                    assert(row0.contains(p));
                } else {
                    assert(ids_sorted(va@));
                    if j1 != i1 { assert(va@[j1] != va@[i1 as int]); }
                    if j2 != i2 { assert(va@[j2] != va@[i2 as int]); }
                    assert(p == G::edge_key(((i1 * nb + j) as usize, (i2 * nb + j) as usize)));
                }
            }
        }
        k = k + 1;
    }
    let ghost left = h.model().edges;
    let mut k2: usize = 0;
    while k2 < eb.len()
        invariant
            h.model().wf(),
            bm == b.model(),
            bm.wf(),
            vb@ == bm.vertices,
            eb@ == bm.edges,
            na == va@.len(),
            nb == vb@.len(),
            total == na * nb,
            k2 <= eb@.len(),
            forall|x: usize| #[trigger] om@.contains_key(x) <==> vb@.contains(x),
            forall|q: int| 0 <= q < vb@.len() ==> #[trigger] om@[vb@[q]] == q,
            forall|u: usize| #[trigger] h.model().vertices.contains(u) <==> u < total,
            forall|p: EdgeID| #[trigger] h.model().edges.contains(p) <==> (left.contains(p) || exists|kk: int, i: int, j1: int, j2: int| 0 <= kk < k2 && 0 <= i < na && 0 <= j1 < nb && 0 <= j2 < nb
                && vb@[j1] == (#[trigger] eb@[kk]).0 && vb@[j2] == eb@[kk].1 && p == #[trigger] G::edge_key(((i * nb + j1) as usize, (i * nb + j2) as usize))),
        decreases eb@.len() - k2,
    {
        let e = eb[k2];
        assert(bm.edges.contains(e));
        let j1 = *om.get(&e.0).unwrap();
        let j2 = *om.get(&e.1).unwrap();
        let ghost q1 = choose|q: int| 0 <= q < vb@.len() && vb@[q] == e.0;
        let ghost q2 = choose|q: int| 0 <= q < vb@.len() && vb@[q] == e.1;
        assert(j1 == q1 && j2 == q2);
        let ghost col0 = h.model().edges;
        let mut s2: usize = 0;
        while s2 < na
            invariant
                h.model().wf(),
                na == va@.len(),
                nb == vb@.len(),
                total == na * nb,
                k2 < eb@.len(),
                e == eb@[k2 as int],
                0 <= j1 < nb && 0 <= j2 < nb,
                vb@[j1 as int] == e.0 && vb@[j2 as int] == e.1,
                s2 <= na,
                forall|u: usize| #[trigger] h.model().vertices.contains(u) <==> u < total,
                forall|p: EdgeID| #[trigger] h.model().edges.contains(p) <==> (col0.contains(p)
                    || exists|i: int| 0 <= i < s2 && p == #[trigger] G::edge_key(((i * nb + j1) as usize, (i * nb + j2) as usize))),
            decreases na - s2,
        {
            proof {
                lemma_product_index(s2 as int, j1 as int, na as int, nb as int);
                lemma_product_index(s2 as int, j2 as int, na as int, nb as int);
            }
            let x = s2 * nb + j1;
            let y = s2 * nb + j2;
            let ghost eb0 = h.model().edges;
            let ghost vb0 = h.model().vertices;
            h.add_edge((x, y));
            proof { crate::graph::lemma_sorted_ids_unique(h.model().vertices, vb0); }
            assert forall|p: EdgeID| #[trigger] h.model().edges.contains(p) <==> (col0.contains(p)
                || exists|i: int| 0 <= i < s2 + 1 && p == #[trigger] G::edge_key(((i * nb + j1) as usize, (i * nb + j2) as usize))) by {
                if exists|i: int| 0 <= i < s2 + 1 && p == #[trigger] G::edge_key(((i * nb + j1) as usize, (i * nb + j2) as usize)) {
                    let i = choose|i: int| 0 <= i < s2 + 1 && p == #[trigger] G::edge_key(((i * nb + j1) as usize, (i * nb + j2) as usize));
                    if i < s2 {
                        assert(eb0.contains(p));
                    }
                }
            }
            s2 = s2 + 1;
        }
        assert forall|p: EdgeID| #[trigger] h.model().edges.contains(p) <==> (left.contains(p) || exists|kk: int, i: int, i1: int, i2: int| 0 <= kk < k2 + 1 && 0 <= i < na && 0 <= i1 < nb && 0 <= i2 < nb
            && vb@[i1] == (#[trigger] eb@[kk]).0 && vb@[i2] == eb@[kk].1 && p == #[trigger] G::edge_key(((i * nb + i1) as usize, (i * nb + i2) as usize))) by {
            if exists|kk: int, i: int, i1: int, i2: int| 0 <= kk < k2 + 1 && 0 <= i < na && 0 <= i1 < nb && 0 <= i2 < nb
                && vb@[i1] == (#[trigger] eb@[kk]).0 && vb@[i2] == eb@[kk].1 && p == #[trigger] G::edge_key(((i * nb + i1) as usize, (i * nb + i2) as usize)) {
                let (kk, i, i1, i2) = choose|kk: int, i: int, i1: int, i2: int| 0 <= kk < k2 + 1 && 0 <= i < na && 0 <= i1 < nb && 0 <= i2 < nb
                    && vb@[i1] == (#[trigger] eb@[kk]).0 && vb@[i2] == eb@[kk].1 && p == #[trigger] G::edge_key(((i * nb + i1) as usize, (i * nb + i2) as usize));
                if kk < k2 {
                    assert(col0.contains(p));
                } else {
                    assert(ids_sorted(vb@));
                    if i1 != j1 { assert(vb@[i1] != vb@[j1 as int]); }
                    if i2 != j2 { assert(vb@[i2] != vb@[j2 as int]); }
                    assert(p == G::edge_key(((i * nb + j1) as usize, (i * nb + j2) as usize)));
                }
            }
        }
        k2 = k2 + 1;
    }
    (h, map)
}

/// Copies onto `h` the labels that `g` has for the vertices and edges of `h`.
fn copy_labels<G: GraphTrait>(h: &mut HashMapLabeledGraph<G>, g: &HashMapLabeledGraph<G>)
    requires
        old(h).model().wf(),
        g.model().wf(),
    ensures
        final(h).model().wf(),
        forall|u: usize| #[trigger] final(h).model().vertices.contains(u) <==> old(h).model().vertices.contains(u),
{
    let verts = h.vertices();
    assert forall|k: int| 0 <= k < verts@.len() implies old(h).model().vertices.contains(#[trigger] verts@[k]) by {
        assert(h.model().vertices.contains(verts@[k]));
    }
    let mut i: usize = 0;
    while i < verts.len()
        invariant
            h.model().wf(),
            g.model().wf(),
            i <= verts@.len(),
            forall|k: int| 0 <= k < verts@.len() ==> old(h).model().vertices.contains(#[trigger] verts@[k]),
            forall|u: usize| #[trigger] h.model().vertices.contains(u) <==> old(h).model().vertices.contains(u),
        decreases verts@.len() - i,
    {
        assert(verts@.contains(verts@[i as int]));
        match g.get_vertex_label(verts[i]) {
            Some(l) => h.set_vertex_label(verts[i], l.duplicate()),
            None => {},
        }
        i = i + 1;
    }
    let edges = h.edges();
    assert forall|k: int| 0 <= k < edges@.len() implies old(h).model().vertices.contains(#[trigger] edges@[k].0) && old(h).model().vertices.contains(edges@[k].1) by {
        assert(h.model().edges.contains(edges@[k]));
    }
    let mut j: usize = 0;
    while j < edges.len()
        invariant
            h.model().wf(),
            g.model().wf(),
            j <= edges@.len(),
            forall|k: int| 0 <= k < edges@.len() ==> old(h).model().vertices.contains(#[trigger] edges@[k].0) && old(h).model().vertices.contains(edges@[k].1),
            forall|u: usize| #[trigger] h.model().vertices.contains(u) <==> old(h).model().vertices.contains(u),
        decreases edges@.len() - j,
    {
        proof {
            assert(edges@.contains(edges@[j as int]));
        }
        match g.get_edge_label(edges[j]) {
            Some(l) => h.set_edge_label(edges[j], l.duplicate()),
            None => {},
        }
        j = j + 1;
    }
}

/// `subgraph_vertex` on a labeled graph; vertices and edges keep their labels.
pub fn labeled_subgraph_vertex<G: GraphTrait>(g: &HashMapLabeledGraph<G>, vertices: &Vec<VertexID>) -> (h: HashMapLabeledGraph<G>)
    requires
        g.model().wf(),
    ensures
        h.model().wf(),
        forall|u: usize| #[trigger] h.model().vertices.contains(u) <==> vertices@.contains(u),
{
    let mut h = subgraph_vertex(g, vertices);
    copy_labels(&mut h, g);
    h
}

/// `subgraph_edges` on a labeled graph; vertices and edges keep their labels.
pub fn labeled_subgraph_edges<G: GraphTrait>(g: &HashMapLabeledGraph<G>, edges: &Vec<EdgeID>) -> (h: HashMapLabeledGraph<G>)
    requires
        g.model().wf(),
    ensures
        h.model().wf(),
{
    let mut h = subgraph_edges(g, edges);
    copy_labels(&mut h, g);
    h
}

/// `complement` on a labeled graph; vertices keep their labels.
pub fn labeled_complement<G: GraphTrait>(g: &HashMapLabeledGraph<G>) -> (h: HashMapLabeledGraph<G>)
    requires
        g.model().wf(),
    ensures
        h.model().wf(),
        forall|u: usize| #[trigger] h.model().vertices.contains(u) <==> g.model().vertices.contains(u),
{
    let mut h = complement(g);
    let verts = h.vertices();
    assert forall|k: int| 0 <= k < verts@.len() implies g.model().vertices.contains(#[trigger] verts@[k]) by {
        assert(h.model().vertices.contains(verts@[k]));
    }
    let mut i: usize = 0;
    while i < verts.len()
        invariant
            h.model().wf(),
            g.model().wf(),
            i <= verts@.len(),
            forall|k: int| 0 <= k < verts@.len() ==> g.model().vertices.contains(#[trigger] verts@[k]),
            forall|u: usize| #[trigger] h.model().vertices.contains(u) <==> g.model().vertices.contains(u),
        decreases verts@.len() - i,
    {
        assert(verts@.contains(verts@[i as int]));
        match g.get_vertex_label(verts[i]) {
            Some(l) => h.set_vertex_label(verts[i], l.duplicate()),
            None => {},
        }
        i = i + 1;
    }
    h
}

/// Carries the labels of one operand over to the result of `merge` or `join`.
fn carry_labels<G: GraphTrait>(h: &mut HashMapLabeledGraph<G>, g: &HashMapLabeledGraph<G>, map: &VertexMap, bound: usize)
    requires
        old(h).model().wf(),
        g.model().wf(),
        forall|x: usize| #[trigger] map@.contains_key(x) <==> g.model().vertices.contains(x),
        forall|x: usize| map@.contains_key(x) ==> #[trigger] map@[x] < bound,
        forall|u: usize| #[trigger] old(h).model().vertices.contains(u) <==> u < bound,
    ensures
        final(h).model().wf(),
        forall|u: usize| #[trigger] final(h).model().vertices.contains(u) <==> u < bound,
{
    let verts = g.vertices();
    let mut i: usize = 0;
    while i < verts.len()
        invariant
            h.model().wf(),
            g.model().wf(),
            verts@ == g.model().vertices,
            i <= verts@.len(),
            forall|x: usize| #[trigger] map@.contains_key(x) <==> g.model().vertices.contains(x),
            forall|x: usize| map@.contains_key(x) ==> #[trigger] map@[x] < bound,
            forall|u: usize| #[trigger] h.model().vertices.contains(u) <==> u < bound,
        decreases verts@.len() - i,
    {
        assert(verts@.contains(verts@[i as int]));
        match (g.get_vertex_label(verts[i]), map.get(&verts[i])) {
            (Some(l), Some(v)) => h.set_vertex_label(*v, l.duplicate()),
            _ => {},
        }
        i = i + 1;
    }
    let edges = g.edges();
    let mut j: usize = 0;
    while j < edges.len()
        invariant
            h.model().wf(),
            g.model().wf(),
            edges@ == g.model().edges,
            j <= edges@.len(),
            forall|x: usize| #[trigger] map@.contains_key(x) <==> g.model().vertices.contains(x),
            forall|x: usize| map@.contains_key(x) ==> #[trigger] map@[x] < bound,
            forall|u: usize| #[trigger] h.model().vertices.contains(u) <==> u < bound,
        decreases edges@.len() - j,
    {
        let e = edges[j];
        match (g.get_edge_label(e), map.get(&e.0), map.get(&e.1)) {
            (Some(l), Some(x), Some(y)) => h.set_edge_label((*x, *y), l.duplicate()),
            _ => {},
        }
        j = j + 1;
    }
}

/// `merge` on labeled graphs; vertices and edges keep their labels.
pub fn labeled_merge<G: GraphTrait>(a: &HashMapLabeledGraph<G>, b: &HashMapLabeledGraph<G>) -> (r: (HashMapLabeledGraph<G>, VertexMap, VertexMap))
    requires
        a.model().wf(),
        b.model().wf(),
        a.model().vertices.len() + b.model().vertices.len() <= usize::MAX,
    ensures
        r.0.model().wf(),
        forall|u: usize| #[trigger] r.0.model().vertices.contains(u) <==> u < a.model().vertices.len() + b.model().vertices.len(),
{
    let (mut h, sm, om) = merge(a, b);
    let bound = a.vertex_count() + b.vertex_count();
    proof { lemma_map_bound(sm, a.model().vertices, 0, bound as int); lemma_map_bound(om, b.model().vertices, a.model().vertices.len() as int, bound as int); }
    carry_labels(&mut h, a, &sm, bound);
    carry_labels(&mut h, b, &om, bound);
    (h, sm, om)
}

/// `join` on labeled graphs; vertices and edges keep their labels.
pub fn labeled_join<G: SimpleGraph>(a: &HashMapLabeledGraph<G>, b: &HashMapLabeledGraph<G>) -> (r: (HashMapLabeledGraph<G>, VertexMap, VertexMap))
    requires
        a.model().wf(),
        b.model().wf(),
        a.model().vertices.len() + b.model().vertices.len() <= usize::MAX,
    ensures
        r.0.model().wf(),
        forall|u: usize| #[trigger] r.0.model().vertices.contains(u) <==> u < a.model().vertices.len() + b.model().vertices.len(),
{
    let (mut h, sm, om) = join(a, b);
    let bound = a.vertex_count() + b.vertex_count();
    proof { lemma_map_bound(sm, a.model().vertices, 0, bound as int); lemma_map_bound(om, b.model().vertices, a.model().vertices.len() as int, bound as int); }
    carry_labels(&mut h, a, &sm, bound);
    carry_labels(&mut h, b, &om, bound);
    (h, sm, om)
}

/// `product` on labeled graphs, with the same map; the result carries no labels.
pub fn labeled_product<G: SimpleGraph>(a: &HashMapLabeledGraph<G>, b: &HashMapLabeledGraph<G>) -> (r: (HashMapLabeledGraph<G>, ProductMap))
    requires
        a.model().wf(),
        b.model().wf(),
        a.model().vertices.len() * b.model().vertices.len() <= usize::MAX,
    ensures
        r.0.model().wf(),
        forall|u: usize| #[trigger] r.0.model().vertices.contains(u) <==> u < a.model().vertices.len() * b.model().vertices.len(),
{
    product(a, b)
}

proof fn lemma_map_bound(m: VertexMap, vs: Seq<usize>, offset: int, bound: int)
    requires
        forall|x: usize| #[trigger] m@.contains_key(x) <==> vs.contains(x),
        forall|k: int| 0 <= k < vs.len() ==> #[trigger] m@[vs[k]] == offset + k,
        offset + vs.len() <= bound,
    ensures
        forall|x: usize| m@.contains_key(x) ==> #[trigger] m@[x] < bound,
{
    assert forall|x: usize| m@.contains_key(x) implies #[trigger] m@[x] < bound by {
        let k = choose|k: int| 0 <= k < vs.len() && vs[k] == x;
        assert(m@[vs[k]] == offset + k);
    }
}

} // verus!
