//! The DOT format: topology only, one statement per line.
use vstd::prelude::*;
use crate::graph::{GraphTrait, GraphView, GraphItem, VertexID, EdgeID, build_graph, holds_items};
use crate::text::{decimal, push_usize, lines, split_lines, id_value, parse_id, push_char, trim, trimmed};

verus! {

/// The vertex lines of a DOT document.
pub open spec fn dot_vertex_lines(vs: Seq<usize>) -> Seq<char>
    decreases vs.len(),
{
    if vs.len() == 0 {
        seq![]
    } else {
        dot_vertex_lines(vs.drop_last()) + "    "@ + decimal(vs.last() as nat) + ";\n"@
    }
}

/// The edge lines of a DOT document.
pub open spec fn dot_edge_lines(es: Seq<(usize, usize)>) -> Seq<char>
    decreases es.len(),
{
    if es.len() == 0 {
        seq![]
    } else {
        dot_edge_lines(es.drop_last()) + "    "@ + decimal(es.last().0 as nat) + " -- "@
            + decimal(es.last().1 as nat) + ";\n"@
    }
}

/// The DOT document of a graph: vertices, a blank line, edges, in ascending order.
pub open spec fn dot_text(m: GraphView) -> Seq<char> {
    "graph {\n"@ + dot_vertex_lines(m.vertices) + "\n"@ + dot_edge_lines(m.edges) + "}"@
}

/// Formats a graph as DOT.
pub fn to_dot<G: GraphTrait>(g: G) -> (r: String)
    requires
        g.model().wf(),
    ensures
        r@ == dot_text(g.model()),
{
    let mut s = String::new();
    s.append("graph {\n");
    let verts = g.vertices();
    let mut i: usize = 0;
    while i < verts.len()
        invariant
            i <= verts@.len(),
            verts@ == g.model().vertices,
            s@ == "graph {\n"@ + dot_vertex_lines(verts@.take(i as int)),
        decreases verts@.len() - i,
    {
        assert(verts@.take(i + 1).drop_last() == verts@.take(i as int));
        s.append("    ");
        push_usize(&mut s, verts[i]);
        s.append(";\n");
        i = i + 1;
    }
    assert(verts@.take(verts@.len() as int) == verts@);
    s.append("\n");
    let edges = g.edges();
    let ghost head = s@;
    let mut j: usize = 0;
    while j < edges.len()
        invariant
            j <= edges@.len(),
            edges@ == g.model().edges,
            s@ == head + dot_edge_lines(edges@.take(j as int)),
        decreases edges@.len() - j,
    {
        assert(edges@.take(j + 1).drop_last() == edges@.take(j as int));
        let e = edges[j];
        s.append("    ");
        push_usize(&mut s, e.0);
        s.append(" -- ");
        push_usize(&mut s, e.1);
        s.append(";\n");
        j = j + 1;
    }
    assert(edges@.take(edges@.len() as int) == edges@);
    s.append("}");
    s
}

/// A text without its spaces and semicolons.
pub open spec fn drop_sp_semi(l: Seq<char>) -> Seq<char>
    decreases l.len(),
{
    if l.len() == 0 {
        seq![]
    } else if l.last() == ' ' || l.last() == ';' {
        drop_sp_semi(l.drop_last())
    } else {
        drop_sp_semi(l.drop_last()).push(l.last())
    }
}

/// A DOT line trimmed at both ends, then without spaces and semicolons.
pub open spec fn dot_clean(l: Seq<char>) -> Seq<char> {
    drop_sp_semi(trim(l))
}

/// Position of the first `--` at or after `k`, if any.
pub open spec fn dash_from(c: Seq<char>, k: int) -> Option<int>
    decreases c.len() - k,
{
    if k < 0 || k + 1 >= c.len() {
        None
    } else if c[k] == '-' && c[k + 1] == '-' {
        Some(k)
    } else {
        dash_from(c, k + 1)
    }
}

/// What a cleaned DOT line states: `Some(Some(item))`, `Some(None)` for a line
/// that states nothing, `None` for a malformed line.
pub open spec fn dot_statement(c: Seq<char>) -> Option<Option<GraphItem>> {
    if let Some(v) = id_value(c) {
        Some(Some(GraphItem::Vertex(v)))
    } else if dash_from(c, 0) is Some && id_value(c.take(dash_from(c, 0)->0)) is Some
        && id_value(c.skip(dash_from(c, 0)->0 + 2)) is Some {
        Some(Some(GraphItem::Edge(id_value(c.take(dash_from(c, 0)->0))->0, id_value(c.skip(dash_from(c, 0)->0 + 2))->0)))
    } else if c.len() == 0 || (c.len() >= 2 && c[0] == '/' && c[1] == '/') || c == "}"@ {
        Some(None)
    } else {
        None
    }
}

/// The statements of the body lines, or `None` if one of them is malformed.
pub open spec fn dot_items(ls: Seq<Seq<char>>) -> Option<Seq<GraphItem>>
    decreases ls.len(),
{
    if ls.len() == 0 {
        Some(seq![])
    } else {
        match dot_items(ls.drop_last()) {
            None => None,
            Some(items) => match dot_statement(dot_clean(ls.last())) {
                None => None,
                Some(None) => Some(items),
                Some(Some(it)) => Some(items.push(it)),
            },
        }
    }
}

/// Whether a text is a DOT document: a `graph {` header line and well-formed body lines.
pub open spec fn dot_accepts(s: Seq<char>) -> bool {
    let ls = split_lines(s);
    ls.len() > 0 && dot_clean(ls[0]) == "graph{"@ && dot_items(ls.skip(1)) is Some
}

/// The statements of a DOT document.
pub open spec fn dot_document_items(s: Seq<char>) -> Seq<GraphItem> {
    dot_items(split_lines(s).skip(1))->0
}

/// Trims a line, then removes its spaces and semicolons.
pub fn clean_dot_line(l: &str) -> (r: String)
    ensures
        r@ == dot_clean(l@),
{
    let t = trimmed(l);
    let n = t.unicode_len();
    let mut r = String::new();
    let mut i: usize = 0;
    while i < n
        invariant
            n == t@.len(),
            i <= n,
            r@ == drop_sp_semi(t@.take(i as int)),
        decreases n - i,
    {
        let c = t.as_str().get_char(i);
        assert(t@.take(i + 1).drop_last() == t@.take(i as int));
        if !(c == ' ' || c == ';') {
            push_char(&mut r, c);
        }
        i = i + 1;
    }
    assert(t@.take(n as int) == t@);
    r
}

/// Position of the first `--` in `c`.
fn find_dash(c: &str) -> (r: Option<usize>)
    ensures
        r matches Some(k) ==> dash_from(c@, 0) == Some(k as int) && k + 1 < c@.len(),
        r is None ==> dash_from(c@, 0) is None,
{
    let n = c.unicode_len();
    let mut k: usize = 0;
    while k < n && k + 1 < n
        invariant
            n == c@.len(),
            k <= n,
            dash_from(c@, 0) == dash_from(c@, k as int),
        decreases n - k,
    {
        if c.get_char(k) == '-' && c.get_char(k + 1) == '-' {
            return Some(k);
        }
        k = k + 1;
    }
    None
}

/// What one cleaned DOT line states.
pub fn dot_line_statement(c: &str) -> (r: Option<Option<GraphItem>>)
    ensures
        r == dot_statement(c@),
{
    if let Some(v) = parse_id(c) {
        return Some(Some(GraphItem::Vertex(v)));
    }
    let n = c.unicode_len();
    if let Some(k) = find_dash(c) {
        let a = parse_id(c.substring_char(0, k));
        let b = parse_id(c.substring_char(k + 2, n));
        assert(c@.subrange(0, k as int) == c@.take(k as int));
        assert(c@.subrange(k + 2, n as int) == c@.skip(k + 2));
        if let (Some(a), Some(b)) = (a, b) {
            return Some(Some(GraphItem::Edge(a, b)));
        }
    }
    if n == 0 || (n >= 2 && c.get_char(0) == '/' && c.get_char(1) == '/') || is_closing_brace(c) {
        Some(None)
    } else {
        None
    }
}

/// Whether the text is exactly `}`.
fn is_closing_brace(c: &str) -> (r: bool)
    ensures
        r == (c@ == "}"@),
{
    proof { reveal_strlit("}"); }
    let r = c.unicode_len() == 1 && c.get_char(0) == '}';
    assert(r ==> c@ =~= "}"@);
    r
}

/// Whether the text is exactly `graph{`.
fn is_dot_header(c: &str) -> (r: bool)
    ensures
        r == (c@ == "graph{"@),
{
    proof { reveal_strlit("graph{"); }
    if c.unicode_len() != 6 {
        return false;
    }
    let r = c.get_char(0) == 'g' && c.get_char(1) == 'r' && c.get_char(2) == 'a' && c.get_char(3) == 'p'
        && c.get_char(4) == 'h' && c.get_char(5) == '{';
    assert(r ==> c@ =~= "graph{"@);
    r
}

/// Reads the statements of a DOT document.
pub fn dot_document(s: &str) -> (r: Result<Vec<GraphItem>, String>)
    ensures
        r is Ok <==> dot_accepts(s@),
        r matches Ok(items) ==> items@ == dot_document_items(s@),
        r matches Err(m) ==> m@ == "Invalid DOT format."@,
{
    let ls = lines(s);
    let ghost sl = split_lines(s@);
    if ls.len() == 0 {
        return Err("Invalid DOT format.".to_owned());
    }
    let head = clean_dot_line(ls[0].as_str());
    if !is_dot_header(head.as_str()) {
        return Err("Invalid DOT format.".to_owned());
    }
    let mut items: Vec<GraphItem> = Vec::new();
    let mut i: usize = 1;
    while i < ls.len()
        invariant
            1 <= i <= ls@.len(),
            ls@.len() == sl.len(),
            sl == split_lines(s@),
            forall|k: int| 0 <= k < ls@.len() ==> #[trigger] ls@[k]@ == sl[k],
            dot_items(sl.skip(1).take(i - 1)) == Some(items@),
        decreases ls@.len() - i,
    {
        assert(sl.skip(1).take(i as int).drop_last() == sl.skip(1).take(i - 1));
        assert(sl.skip(1).take(i as int).last() == sl[i as int]);
        let c = clean_dot_line(ls[i].as_str());
        match dot_line_statement(c.as_str()) {
            None => {
                proof { lemma_dot_items_stays_none(sl.skip(1), i as int); }
                return Err("Invalid DOT format.".to_owned());
            },
            Some(None) => {},
            Some(Some(it)) => {
                items.push(it);
            },
        }
        i = i + 1;
    }
    assert(sl.skip(1).take(i - 1) == sl.skip(1));
    Ok(items)
}

proof fn lemma_dot_items_stays_none(ls: Seq<Seq<char>>, i: int)
    requires
        0 <= i <= ls.len(),
        dot_items(ls.take(i)) is None,
    ensures
        dot_items(ls) is None,
    decreases ls.len() - i,
{
    if i < ls.len() {
        assert(ls.take(i + 1).drop_last() == ls.take(i));
        lemma_dot_items_stays_none(ls, i + 1);
    } else {
        assert(ls.take(i) == ls);
    }
}

/// Reads a graph from a DOT document.
pub fn from_dot<G: GraphTrait>(string: String) -> (r: Result<G, String>)
    ensures
        r is Ok <==> dot_accepts(string@),
        r matches Ok(g) ==> holds_items::<G>(g.model(), dot_document_items(string@)),
        r matches Err(m) ==> m@ == "Invalid DOT format."@,
{
    match dot_document(string.as_str()) {
        Ok(items) => Ok(build_graph(&items)),
        Err(e) => Err(e),
    }
}

} // verus!
