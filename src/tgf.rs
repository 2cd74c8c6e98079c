//! The Trivial Graph Format: vertex lines, a `#` line, then edge lines.
use vstd::prelude::*;
use crate::graph::{GraphTrait, GraphView, GraphItem, build_graph, holds_items};
use crate::text::{decimal, push_usize, lines, split_lines, id_value, parse_id, trim, trimmed};

verus! {

pub open spec fn tgf_vertex_lines(vs: Seq<usize>) -> Seq<char>
    decreases vs.len(),
{
    if vs.len() == 0 {
        seq![]
    } else {
        tgf_vertex_lines(vs.drop_last()) + decimal(vs.last() as nat) + "\n"@
    }
}

/// The edge lines, each led by the line break that ends the line before it.
pub open spec fn tgf_edge_lines(es: Seq<(usize, usize)>) -> Seq<char>
    decreases es.len(),
{
    if es.len() == 0 {
        seq![]
    } else {
        tgf_edge_lines(es.drop_last()) + "\n"@ + decimal(es.last().0 as nat) + " "@ + decimal(es.last().1 as nat)
    }
}

/// The TGF document of a graph, in ascending order, with no final line break.
pub open spec fn tgf_text(m: GraphView) -> Seq<char> {
    tgf_vertex_lines(m.vertices) + "#"@ + tgf_edge_lines(m.edges)
}

/// Formats a graph as TGF.
pub fn to_tgf<G: GraphTrait>(g: G) -> (r: String)
    requires
        g.model().wf(),
    ensures
        r@ == tgf_text(g.model()),
{
    let mut s = String::new();
    let verts = g.vertices();
    let mut i: usize = 0;
    while i < verts.len()
        invariant
            i <= verts@.len(),
            verts@ == g.model().vertices,
            s@ == tgf_vertex_lines(verts@.take(i as int)),
        decreases verts@.len() - i,
    {
        assert(verts@.take(i + 1).drop_last() == verts@.take(i as int));
        push_usize(&mut s, verts[i]);
        s.append("\n");
        i = i + 1;
    }
    assert(verts@.take(verts@.len() as int) == verts@);
    s.append("#");
    let edges = g.edges();
    let ghost head = s@;
    let mut j: usize = 0;
    while j < edges.len()
        invariant
            j <= edges@.len(),
            edges@ == g.model().edges,
            s@ == head + tgf_edge_lines(edges@.take(j as int)),
        decreases edges@.len() - j,
    {
        assert(edges@.take(j + 1).drop_last() == edges@.take(j as int));
        let e = edges[j];
        s.append("\n");
        push_usize(&mut s, e.0);
        s.append(" ");
        push_usize(&mut s, e.1);
        j = j + 1;
    }
    assert(edges@.take(edges@.len() as int) == edges@);
    s
}

/// Position of the first space at or after `k`, if any.
pub open spec fn space_from(c: Seq<char>, k: int) -> Option<int>
    decreases c.len() - k,
{
    if k < 0 || k >= c.len() {
        None
    } else if c[k] == ' ' {
        Some(k)
    } else {
        space_from(c, k + 1)
    }
}

/// What a trimmed TGF line states: `Some(Some(item))`, `Some(None)` for the
/// `#` separator, `None` for a malformed line.
pub open spec fn tgf_statement(c: Seq<char>) -> Option<Option<GraphItem>> {
    if let Some(v) = id_value(c) {
        Some(Some(GraphItem::Vertex(v)))
    } else if space_from(c, 0) is Some && id_value(c.take(space_from(c, 0)->0)) is Some
        && id_value(c.skip(space_from(c, 0)->0 + 1)) is Some {
        Some(Some(GraphItem::Edge(id_value(c.take(space_from(c, 0)->0))->0, id_value(c.skip(space_from(c, 0)->0 + 1))->0)))
    } else if c == "#"@ {
        Some(None)
    } else {
        None
    }
}

/// The statements of the lines, or `None` if one of them is malformed.
pub open spec fn tgf_items(ls: Seq<Seq<char>>) -> Option<Seq<GraphItem>>
    decreases ls.len(),
{
    if ls.len() == 0 {
        Some(seq![])
    } else {
        match tgf_items(ls.drop_last()) {
            None => None,
            Some(items) => match tgf_statement(trim(ls.last())) {
                None => None,
                Some(None) => Some(items),
                Some(Some(it)) => Some(items.push(it)),
            },
        }
    }
}

/// Position of the first space in `c`.
fn find_space(c: &str) -> (r: Option<usize>)
    ensures
        r matches Some(k) ==> space_from(c@, 0) == Some(k as int) && k < c@.len(),
        r is None ==> space_from(c@, 0) is None,
{
    let n = c.unicode_len();
    let mut k: usize = 0;
    while k < n
        invariant
            n == c@.len(),
            k <= n,
            space_from(c@, 0) == space_from(c@, k as int),
        decreases n - k,
    {
        if c.get_char(k) == ' ' {
            return Some(k);
        }
        k = k + 1;
    }
    None
}

/// Whether the text is exactly `#`.
fn is_separator(c: &str) -> (r: bool)
    ensures
        r == (c@ == "#"@),
{
    proof { reveal_strlit("#"); }
    let r = c.unicode_len() == 1 && c.get_char(0) == '#';
    assert(r ==> c@ =~= "#"@);
    r
}

/// What one trimmed TGF line states.
pub fn tgf_line_statement(c: &str) -> (r: Option<Option<GraphItem>>)
    ensures
        r == tgf_statement(c@),
{
    if let Some(v) = parse_id(c) {
        return Some(Some(GraphItem::Vertex(v)));
    }
    let n = c.unicode_len();
    if let Some(k) = find_space(c) {
        let a = parse_id(c.substring_char(0, k));
        let b = parse_id(c.substring_char(k + 1, n));
        assert(c@.subrange(0, k as int) == c@.take(k as int));
        assert(c@.subrange(k + 1, n as int) == c@.skip(k + 1));
        if let (Some(a), Some(b)) = (a, b) {
            return Some(Some(GraphItem::Edge(a, b)));
        }
    }
    if is_separator(c) {
        Some(None)
    } else {
        None
    }
}

proof fn lemma_tgf_items_stays_none(ls: Seq<Seq<char>>, i: int)
    requires
        0 <= i <= ls.len(),
        tgf_items(ls.take(i)) is None,
    ensures
        tgf_items(ls) is None,
    decreases ls.len() - i,
{
    if i < ls.len() {
        assert(ls.take(i + 1).drop_last() == ls.take(i));
        lemma_tgf_items_stays_none(ls, i + 1);
    } else {
        assert(ls.take(i) == ls);
    }
}

/// Reads the statements of a TGF document.
pub fn tgf_document(s: &str) -> (r: Result<Vec<GraphItem>, String>)
    ensures
        r is Ok <==> tgf_items(split_lines(s@)) is Some,
        r matches Ok(items) ==> Some(items@) == tgf_items(split_lines(s@)),
        r matches Err(m) ==> m@ == "Invalid TGF format."@,
{
    let ls = lines(s);
    let ghost sl = split_lines(s@);
    let mut items: Vec<GraphItem> = Vec::new();
    let mut i: usize = 0;
    while i < ls.len()
        invariant
            i <= ls@.len(),
            ls@.len() == sl.len(),
            sl == split_lines(s@),
            forall|k: int| 0 <= k < ls@.len() ==> #[trigger] ls@[k]@ == sl[k],
            tgf_items(sl.take(i as int)) == Some(items@),
        decreases ls@.len() - i,
    {
        assert(sl.take(i + 1).drop_last() == sl.take(i as int));
        assert(sl.take(i + 1).last() == sl[i as int]);
        let c = trimmed(ls[i].as_str());
        match tgf_line_statement(c.as_str()) {
            None => {
                proof { lemma_tgf_items_stays_none(sl, i + 1); }
                return Err("Invalid TGF format.".to_owned());
            },
            Some(None) => {},
            Some(Some(it)) => {
                items.push(it);
            },
        }
        i = i + 1;
    }
    assert(sl.take(i as int) == sl);
    Ok(items)
}

/// Reads a graph from a TGF document.
pub fn from_tgf<G: GraphTrait>(string: String) -> (r: Result<G, String>)
    ensures
        r is Ok <==> tgf_items(split_lines(string@)) is Some,
        r matches Ok(g) ==> holds_items::<G>(g.model(), tgf_items(split_lines(string@))->0),
        r matches Err(m) ==> m@ == "Invalid TGF format."@,
{
    match tgf_document(string.as_str()) {
        Ok(items) => Ok(build_graph(&items)),
        Err(e) => Err(e),
    }
}

} // verus!
