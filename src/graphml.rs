//! The GraphML format: XML with attribute-key declarations derived from the
//! flattened labels.
use vstd::prelude::*;
use crate::flat::{FlatEntry, entries_view, entry_view, flat, get_flat_map};
use crate::graph::{GraphTrait, GraphView, VertexID, EdgeID, SimpleGraph, DiGraph};
use crate::labeled::HashMapLabeledGraph;
use crate::text::{decimal, push_usize, push_char};
use crate::value::{Value, Tree, text_lt, compare_text, is_leaf, lemma_text_lt_transitive, lemma_text_lt_total};

verus! {

/// XML escaping of text and attribute values.
pub open spec fn xml_escape(s: Seq<char>) -> Seq<char>
    decreases s.len(),
{
    if s.len() == 0 {
        seq![]
    } else {
        xml_escape(s.drop_last()) + escape_char(s.last())
    }
}

pub open spec fn escape_char(c: char) -> Seq<char> {
    if c == '<' { "&lt;"@ }
    else if c == '>' { "&gt;"@ }
    else if c == '&' { "&amp;"@ }
    else if c == '"' { "&quot;"@ }
    else if c == '\'' { "&apos;"@ }
    else { seq![c] }
}

/// Appends `t` escaped.
pub fn push_escaped(s: &mut String, t: &str)
    ensures
        final(s)@ == old(s)@ + xml_escape(t@),
{
    let n = t.unicode_len();
    let ghost start = s@;
    let mut i: usize = 0;
    while i < n
        invariant
            n == t@.len(),
            i <= n,
            s@ == start + xml_escape(t@.take(i as int)),
        decreases n - i,
    {
        let c = t.get_char(i);
        assert(t@.take(i + 1).drop_last() == t@.take(i as int));
        if c == '<' {
            s.append("&lt;");
        } else if c == '>' {
            s.append("&gt;");
        } else if c == '&' {
            s.append("&amp;");
        } else if c == '"' {
            s.append("&quot;");
        } else if c == '\'' {
            s.append("&apos;");
        } else {
            push_char(s, c);
            assert(seq![c] == escape_char(c));
        }
        assert(s@ =~= start + xml_escape(t@.take(i + 1)));
        i = i + 1;
    }
    assert(t@.take(n as int) == t@);
}

pub type Entry = (Seq<char>, Seq<char>, Seq<char>);

/// Inserts an entry into a list ordered by path; an entry with the same path is replaced.
pub open spec fn insert_by_path(s: Seq<Entry>, e: Entry) -> Seq<Entry>
    decreases s.len(),
{
    if s.len() == 0 {
        seq![e]
    } else if s[0].0 == e.0 {
        seq![e] + s.drop_first()
    } else if text_lt(e.0, s[0].0) {
        seq![e] + s
    } else {
        seq![s[0]] + insert_by_path(s.drop_first(), e)
    }
}

/// The entries ordered by path, a later entry replacing an earlier one with the same path.
pub open spec fn sort_by_path(s: Seq<Entry>) -> Seq<Entry>
    decreases s.len(),
{
    if s.len() == 0 {
        seq![]
    } else {
        insert_by_path(sort_by_path(s.drop_last()), s.last())
    }
}

proof fn lemma_insert_at(s: Seq<Entry>, e: Entry, i: int)
    requires
        0 <= i <= s.len(),
        forall|k: int| 0 <= k < i ==> text_lt(#[trigger] s[k].0, e.0),
        i < s.len() ==> !text_lt(s[i].0, e.0),
    ensures
        insert_by_path(s, e) == if i < s.len() && s[i].0 == e.0 {
            s.take(i) + seq![e] + s.skip(i + 1)
        } else {
            s.take(i) + seq![e] + s.skip(i)
        },
    decreases i,
{
    if i == 0 {
        if s.len() > 0 && s[0].0 != e.0 {
            lemma_text_lt_total(s[0].0, e.0);
        }
        assert(s.skip(0) =~= s);
        assert(s.skip(1) =~= s.drop_first());
        assert(s.take(0) =~= seq![]);
    } else {
        assert(text_lt(s[0].0, e.0));
        if s[0].0 == e.0 {
            crate::value::lemma_text_lt_irreflexive(e.0);
        }
        crate::value::lemma_text_lt_asymmetric(s[0].0, e.0);
        let t = s.drop_first();
        assert forall|k: int| 0 <= k < i - 1 implies text_lt(#[trigger] t[k].0, e.0) by {
            assert(t[k] == s[k + 1]);
        }
        lemma_insert_at(t, e, i - 1);
        if i < s.len() && s[i].0 == e.0 {
            assert(s.take(i) + seq![e] + s.skip(i + 1) =~= seq![s[0]] + (t.take(i - 1) + seq![e] + t.skip(i)));
        } else {
            assert(s.take(i) + seq![e] + s.skip(i) =~= seq![s[0]] + (t.take(i - 1) + seq![e] + t.skip(i - 1)));
        }
    }
}

/// Copies a flattened entry.
fn copy_entry(e: &FlatEntry) -> (r: FlatEntry)
    ensures
        entry_view(r) == entry_view(*e),
{
    FlatEntry { path: e.path.clone(), text: e.text.clone(), kind: e.kind.clone() }
}

/// The entries ordered by path, a later entry replacing an earlier one with the same path.
pub fn sorted_entries(v: &Vec<FlatEntry>) -> (r: Vec<FlatEntry>)
    ensures
        entries_view(r@) == sort_by_path(entries_view(v@)),
{
    let mut out: Vec<FlatEntry> = Vec::new();
    let mut j: usize = 0;
    while j < v.len()
        invariant
            j <= v@.len(),
            entries_view(out@) == sort_by_path(entries_view(v@).take(j as int)),
        decreases v@.len() - j,
    {
        let e = copy_entry(&v[j]);
        let ghost ev = entry_view(e);
        let ghost s = entries_view(out@);
        assert(entries_view(v@).take(j + 1).drop_last() == entries_view(v@).take(j as int));
        assert(entries_view(v@).take(j + 1).last() == ev);
        let mut i: usize = 0;
        while i < out.len() && compare_text(out[i].path.as_str(), e.path.as_str()) < 0
            invariant
                i <= out@.len(),
                s == entries_view(out@),
                ev == entry_view(e),
                forall|k: int| 0 <= k < i ==> text_lt(#[trigger] s[k].0, ev.0),
            decreases out@.len() - i,
        {
            i = i + 1;
        }
        let same = i < out.len() && compare_text(out[i].path.as_str(), e.path.as_str()) == 0;
        proof { lemma_insert_at(s, ev, i as int); }
        if same {
            out.remove(i);
            out.insert(i, e);
        } else {
            out.insert(i, e);
        }
        assert(entries_view(out@) =~= insert_by_path(s, ev));
        j = j + 1;
    }
    assert(entries_view(v@).take(v@.len() as int) == entries_view(v@));
    out
}

/// The declaration and the opening `graphml` tag.
pub open spec fn graphml_head() -> Seq<char> {
    "<?xml version=\"1.0\" encoding=\"UTF-8\"?>\n<graphml xmlns=\"http://graphml.graphdrawing.org/xmlns\" xmlns:xsi=\"http://www.w3.org/2001/XMLSchema-instance\" xsi:schemaLocation=\"http://graphml.graphdrawing.org/xmlns/1.0/graphml.xsd\">"@
}

/// One `key` declaration per entry, for nodes or edges.
pub open spec fn graphml_keys(es: Seq<Entry>, domain: Seq<char>) -> Seq<char>
    decreases es.len(),
{
    if es.len() == 0 {
        seq![]
    } else {
        graphml_keys(es.drop_last(), domain) + "\n  <key id=\""@ + xml_escape(es.last().0) + "\" for=\""@ + domain
            + "\" attr.name=\""@ + xml_escape(es.last().0) + "\" attr.type=\""@ + xml_escape(es.last().2) + "\"/>"@
    }
}

/// One `data` element per entry.
pub open spec fn graphml_data(es: Seq<Entry>) -> Seq<char>
    decreases es.len(),
{
    if es.len() == 0 {
        seq![]
    } else {
        graphml_data(es.drop_last()) + "\n      <data key=\""@ + xml_escape(es.last().0) + "\">"@ + xml_escape(es.last().1) + "</data>"@
    }
}

/// An element holding data lines: empty as `<tag ...></tag>`, else one data line per entry.
pub open spec fn graphml_element(open: Seq<char>, close: Seq<char>, es: Seq<Entry>) -> Seq<char> {
    if es.len() == 0 {
        open + close
    } else {
        open + graphml_data(es) + "\n    "@ + close
    }
}

pub open spec fn node_open(v: VertexID) -> Seq<char> {
    "\n    <node id=\""@ + decimal(v as nat) + "\">"@
}

pub open spec fn edge_open(e: EdgeID) -> Seq<char> {
    "\n    <edge source=\""@ + decimal(e.0 as nat) + "\" target=\""@ + decimal(e.1 as nat) + "\">"@
}

/// Nodes written as empty elements.
pub open spec fn graphml_plain_nodes(vs: Seq<usize>) -> Seq<char>
    decreases vs.len(),
{
    if vs.len() == 0 {
        seq![]
    } else {
        graphml_plain_nodes(vs.drop_last()) + "\n    <node id=\""@ + decimal(vs.last() as nat) + "\"/>"@
    }
}

/// Edges written as empty elements.
pub open spec fn graphml_plain_edges(es: Seq<(usize, usize)>) -> Seq<char>
    decreases es.len(),
{
    if es.len() == 0 {
        seq![]
    } else {
        graphml_plain_edges(es.drop_last()) + "\n    <edge source=\""@ + decimal(es.last().0 as nat) + "\" target=\""@
            + decimal(es.last().1 as nat) + "\"/>"@
    }
}

/// The `graph` element around its children, and the closing `graphml` tag.
pub open spec fn graphml_graph(directed: bool, body: Seq<char>) -> Seq<char> {
    let open = "\n  <graph edgedefault=\""@ + (if directed { "directed"@ } else { "undirected"@ }) + "\">"@;
    if body.len() == 0 {
        open + "</graph>"@ + "\n</graphml>"@
    } else {
        open + body + "\n  </graph>"@ + "\n</graphml>"@
    }
}

/// The GraphML document of a graph without labels.
pub open spec fn graphml_text(m: GraphView, directed: bool) -> Seq<char> {
    graphml_head() + graphml_graph(directed, graphml_plain_nodes(m.vertices) + graphml_plain_edges(m.edges))
}

/// Appends the opening of the `graph` element.
fn push_graph_open(s: &mut String, directed: bool)
    ensures
        final(s)@ == old(s)@ + "\n  <graph edgedefault=\""@ + (if directed { "directed"@ } else { "undirected"@ }) + "\">"@,
{
    s.append("\n  <graph edgedefault=\"");
    if directed {
        s.append("directed");
    } else {
        s.append("undirected");
    }
    s.append("\">");
}

/// Appends the close of the `graph` element and of the document.
fn push_graph_close(s: &mut String, empty: bool)
    ensures
        final(s)@ == old(s)@ + (if empty { "</graph>"@ } else { "\n  </graph>"@ }) + "\n</graphml>"@,
{
    if empty {
        s.append("</graph>");
    } else {
        s.append("\n  </graph>");
    }
    s.append("\n</graphml>");
}

fn to_graphml_helper<G: GraphTrait>(graph: G, directed: bool) -> (r: String)
    requires
        graph.model().wf(),
    ensures
        r@ == graphml_text(graph.model(), directed),
{
    let mut s = String::new();
    s.append("<?xml version=\"1.0\" encoding=\"UTF-8\"?>\n<graphml xmlns=\"http://graphml.graphdrawing.org/xmlns\" xmlns:xsi=\"http://www.w3.org/2001/XMLSchema-instance\" xsi:schemaLocation=\"http://graphml.graphdrawing.org/xmlns/1.0/graphml.xsd\">");
    push_graph_open(&mut s, directed);
    let ghost head = s@;
    let verts = graph.vertices();
    let mut i: usize = 0;
    while i < verts.len()
        invariant
            i <= verts@.len(),
            verts@ == graph.model().vertices,
            s@ == head + graphml_plain_nodes(verts@.take(i as int)),
        decreases verts@.len() - i,
    {
        assert(verts@.take(i + 1).drop_last() == verts@.take(i as int));
        s.append("\n    <node id=\"");
        push_usize(&mut s, verts[i]);
        s.append("\"/>");
        i = i + 1;
    }
    assert(verts@.take(verts@.len() as int) == verts@);
    let ghost mid = s@;
    let edges = graph.edges();
    let mut j: usize = 0;
    while j < edges.len()
        invariant
            j <= edges@.len(),
            edges@ == graph.model().edges,
            s@ == mid + graphml_plain_edges(edges@.take(j as int)),
        decreases edges@.len() - j,
    {
        assert(edges@.take(j + 1).drop_last() == edges@.take(j as int));
        let e = edges[j];
        s.append("\n    <edge source=\"");
        push_usize(&mut s, e.0);
        s.append("\" target=\"");
        push_usize(&mut s, e.1);
        s.append("\"/>");
        j = j + 1;
    }
    assert(edges@.take(edges@.len() as int) == edges@);
    let ghost body = graphml_plain_nodes(verts@) + graphml_plain_edges(edges@);
    proof { lemma_plain_len(verts@, edges@); }
    push_graph_close(&mut s, verts.len() == 0 && edges.len() == 0);
    assert(s@ =~= graphml_text(graph.model(), directed));
    s
}

proof fn lemma_plain_len(vs: Seq<usize>, es: Seq<(usize, usize)>)
    ensures
        (graphml_plain_nodes(vs) + graphml_plain_edges(es)).len() == 0 <==> (vs.len() == 0 && es.len() == 0),
{
    if vs.len() > 0 {
        assert(graphml_plain_nodes(vs).len() > 0);
    }
    if es.len() > 0 {
        assert(graphml_plain_edges(es).len() > 0);
    }
}

/// Formats an undirected graph as GraphML.
pub fn to_graphml_simple<G: SimpleGraph>(graph: G) -> (r: String)
    requires
        graph.model().wf(),
    ensures
        r@ == graphml_text(graph.model(), false),
{
    to_graphml_helper(graph, false)
}

/// Formats a directed graph as GraphML.
pub fn to_graphml_digraph<G: DiGraph>(graph: G) -> (r: String)
    requires
        graph.model().wf(),
    ensures
        r@ == graphml_text(graph.model(), true),
{
    to_graphml_helper(graph, true)
}

/// The path a label's leaves start from: the synthetic key for a leaf label, none for a record or list.
pub open spec fn label_root(t: Tree, synthetic: Seq<char>) -> Seq<char> {
    if is_leaf(t) { synthetic } else { seq![] }
}

/// The flattened fields of a label, ordered by path.
#[verifier::opaque]
pub open spec fn label_entries(t: Tree, synthetic: Seq<char>) -> Seq<Entry> {
    sort_by_path(flat(label_root(t, synthetic), t))
}

/// The fields of a label if there is one and a schema was declared; none otherwise.
pub open spec fn own_entries(schema: bool, t: Option<Tree>, synthetic: Seq<char>) -> Seq<Entry> {
    if schema && t is Some { label_entries(t->0, synthetic) } else { seq![] }
}

/// The schema: the fields of the label of the first item, when it has one.
pub open spec fn schema_of(first: Option<Tree>, synthetic: Seq<char>) -> Option<Seq<Entry>> {
    match first {
        Some(t) => Some(label_entries(t, synthetic)),
        None => None,
    }
}

pub open spec fn opt_entries(s: Option<Seq<Entry>>) -> Seq<Entry> {
    match s {
        Some(e) => e,
        None => seq![],
    }
}

pub open spec fn labeled_nodes(vs: Seq<usize>, vl: spec_fn(VertexID) -> Option<Tree>, schema: bool) -> Seq<char>
    decreases vs.len(),
{
    if vs.len() == 0 {
        seq![]
    } else {
        labeled_nodes(vs.drop_last(), vl, schema) + graphml_element(node_open(vs.last()), "</node>"@, own_entries(schema, vl(vs.last()), "0N"@))
    }
}

pub open spec fn labeled_edges(es: Seq<(usize, usize)>, el: spec_fn(EdgeID) -> Option<Tree>, schema: bool) -> Seq<char>
    decreases es.len(),
{
    if es.len() == 0 {
        seq![]
    } else {
        labeled_edges(es.drop_last(), el, schema) + graphml_element(edge_open(es.last()), "</edge>"@, own_entries(schema, el(es.last()), "0E"@))
    }
}

/// The GraphML document of a labeled graph: the keys come from the label of
/// the first vertex and of the first edge; each vertex and edge then lists
/// the fields of its own label.
pub open spec fn labeled_graphml_text(m: GraphView, vl: spec_fn(VertexID) -> Option<Tree>, el: spec_fn(EdgeID) -> Option<Tree>, directed: bool) -> Seq<char> {
    let ns = if m.vertices.len() > 0 { schema_of(vl(m.vertices[0]), "0N"@) } else { None };
    let es = if m.edges.len() > 0 { schema_of(el(m.edges[0]), "0E"@) } else { None };
    graphml_head() + graphml_keys(opt_entries(ns), "node"@) + graphml_keys(opt_entries(es), "edge"@)
        + graphml_graph(directed, labeled_nodes(m.vertices, vl, ns is Some) + labeled_edges(m.edges, el, es is Some))
}

/// The flattened fields of a label, ordered by path.
fn label_entries_of(v: &Value, synthetic: &str) -> (r: Vec<FlatEntry>)
    ensures
        entries_view(r@) == label_entries(v@, synthetic@),
{
    proof { reveal(label_entries); }
    let root = if v.is_primitive() { synthetic.to_owned() } else { String::new() };
    let mut out: Vec<FlatEntry> = Vec::new();
    get_flat_map(&root, v, &mut out);
    assert(entries_view(out@) =~= flat(label_root(v@, synthetic@), v@));
    sorted_entries(&out)
}

/// Appends the key declarations.
fn push_keys(s: &mut String, es: &Vec<FlatEntry>, domain: &str)
    ensures
        final(s)@ == old(s)@ + graphml_keys(entries_view(es@), domain@),
{
    let ghost start = s@;
    let mut i: usize = 0;
    while i < es.len()
        invariant
            i <= es@.len(),
            s@ == start + graphml_keys(entries_view(es@).take(i as int), domain@),
        decreases es@.len() - i,
    {
        assert(entries_view(es@).take(i + 1).drop_last() == entries_view(es@).take(i as int));
        assert(entries_view(es@).take(i + 1).last() == entry_view(es@[i as int]));
        s.append("\n  <key id=\"");
        push_escaped(s, es[i].path.as_str());
        s.append("\" for=\"");
        s.append(domain);
        s.append("\" attr.name=\"");
        push_escaped(s, es[i].path.as_str());
        s.append("\" attr.type=\"");
        push_escaped(s, es[i].kind.as_str());
        s.append("\"/>");
        assert(s@ =~= start + graphml_keys(entries_view(es@).take(i + 1), domain@));
        i = i + 1;
    }
    assert(entries_view(es@).take(es@.len() as int) == entries_view(es@));
}

/// Appends an element with its data lines.
fn push_element(s: &mut String, open: &String, close: &str, es: &Vec<FlatEntry>)
    ensures
        final(s)@ == old(s)@ + graphml_element(open@, close@, entries_view(es@)),
{
    s.append(open.as_str());
    let ghost start = s@;
    let mut i: usize = 0;
    while i < es.len()
        invariant
            i <= es@.len(),
            s@ == start + graphml_data(entries_view(es@).take(i as int)),
        decreases es@.len() - i,
    {
        assert(entries_view(es@).take(i + 1).drop_last() == entries_view(es@).take(i as int));
        assert(entries_view(es@).take(i + 1).last() == entry_view(es@[i as int]));
        s.append("\n      <data key=\"");
        push_escaped(s, es[i].path.as_str());
        s.append("\">");
        push_escaped(s, es[i].text.as_str());
        s.append("</data>");
        assert(s@ =~= start + graphml_data(entries_view(es@).take(i + 1)));
        i = i + 1;
    }
    assert(entries_view(es@).take(es@.len() as int) == entries_view(es@));
    if es.len() > 0 {
        s.append("\n    ");
    }
    s.append(close);
}

/// The fields to write for one vertex or edge.
fn own_entries_of(has_schema: bool, label: Option<&Value>, synthetic: &str) -> (r: Vec<FlatEntry>)
    ensures
        entries_view(r@) == (if has_schema && label is Some { label_entries(label->0@, synthetic@) } else { seq![] }),
{
    match label {
        Some(l) => if has_schema {
            label_entries_of(l, synthetic)
        } else {
            let r: Vec<FlatEntry> = Vec::new();
            assert(entries_view(r@) =~= seq![]);
            r
        },
        None => {
            let r: Vec<FlatEntry> = Vec::new();
            assert(entries_view(r@) =~= seq![]);
            r
        },
    }
}

fn push_labeled_nodes<G: GraphTrait>(s: &mut String, graph: &HashMapLabeledGraph<G>, verts: &Vec<VertexID>, has_ns: bool)
    requires
        graph.model().wf(),
        verts@ == graph.model().vertices,
    ensures
        final(s)@ == old(s)@ + labeled_nodes(verts@, |v: VertexID| graph.vertex_label(v), has_ns),
{
    let ghost vl = |v: VertexID| graph.vertex_label(v);
    let ghost head = s@;
    let mut i: usize = 0;
    while i < verts.len()
        invariant
            i <= verts@.len(),
            graph.model().wf(),
            verts@ == graph.model().vertices,
            forall|v: VertexID| #[trigger] vl(v) == graph.vertex_label(v),
            s@ == head + labeled_nodes(verts@.take(i as int), vl, has_ns),
        decreases verts@.len() - i,
    {
        assert(verts@.take(i + 1).drop_last() == verts@.take(i as int));
        let mut open = String::new();
        open.append("\n    <node id=\"");
        push_usize(&mut open, verts[i]);
        open.append("\">");
        proof { reveal_strlit("0N"); }
        let own = own_entries_of(has_ns, graph.get_vertex_label(verts[i]), "0N");
        push_element(s, &open, "</node>", &own);
        assert(s@ =~= head + labeled_nodes(verts@.take(i + 1), vl, has_ns));
        i = i + 1;
    }
    assert(verts@.take(verts@.len() as int) == verts@);
}

fn push_labeled_edges<G: GraphTrait>(s: &mut String, graph: &HashMapLabeledGraph<G>, edges: &Vec<EdgeID>, has_es: bool)
    requires
        graph.model().wf(),
        edges@ == graph.model().edges,
    ensures
        final(s)@ == old(s)@ + labeled_edges(edges@, |e: EdgeID| graph.edge_label(e), has_es),
{
    let ghost el = |e: EdgeID| graph.edge_label(e);
    let ghost mid = s@;
    let mut j: usize = 0;
    while j < edges.len()
        invariant
            j <= edges@.len(),
            graph.model().wf(),
            edges@ == graph.model().edges,
            forall|e: EdgeID| #[trigger] el(e) == graph.edge_label(e),
            s@ == mid + labeled_edges(edges@.take(j as int), el, has_es),
        decreases edges@.len() - j,
    {
        assert(edges@.take(j + 1).drop_last() == edges@.take(j as int));
        let e = edges[j];
        let mut open = String::new();
        open.append("\n    <edge source=\"");
        push_usize(&mut open, e.0);
        open.append("\" target=\"");
        push_usize(&mut open, e.1);
        open.append("\">");
        proof { reveal_strlit("0E"); }
        let own = own_entries_of(has_es, graph.get_edge_label(e), "0E");
        push_element(s, &open, "</edge>", &own);
        assert(s@ =~= mid + labeled_edges(edges@.take(j + 1), el, has_es));
        j = j + 1;
    }
    assert(edges@.take(edges@.len() as int) == edges@);
}

pub open spec fn schema_view(o: Option<Vec<FlatEntry>>) -> Option<Seq<Entry>> {
    match o {
        Some(k) => Some(entries_view(k@)),
        None => None,
    }
}

/// The node schema: the fields of the first vertex's label.
fn vertex_schema<G: GraphTrait>(graph: &HashMapLabeledGraph<G>, verts: &Vec<VertexID>) -> (r: Option<Vec<FlatEntry>>)
    requires
        graph.model().wf(),
        verts@ == graph.model().vertices,
    ensures
        schema_view(r) == (if verts@.len() > 0 { schema_of(graph.vertex_label(verts@[0]), "0N"@) } else { None }),
{
    proof { reveal_strlit("0N"); }
    if verts.len() > 0 {
        match graph.get_vertex_label(verts[0]) {
            Some(l) => Some(label_entries_of(l, "0N")),
            None => None,
        }
    } else {
        None
    }
}

/// The edge schema: the fields of the first edge's label.
fn edge_schema<G: GraphTrait>(graph: &HashMapLabeledGraph<G>, edges: &Vec<EdgeID>) -> (r: Option<Vec<FlatEntry>>)
    requires
        graph.model().wf(),
        edges@ == graph.model().edges,
    ensures
        schema_view(r) == (if edges@.len() > 0 { schema_of(graph.edge_label(edges@[0]), "0E"@) } else { None }),
{
    proof { reveal_strlit("0E"); }
    if edges.len() > 0 {
        match graph.get_edge_label(edges[0]) {
            Some(l) => Some(label_entries_of(l, "0E")),
            None => None,
        }
    } else {
        None
    }
}

/// Appends the key declarations of a schema, if any.
fn push_schema(s: &mut String, schema: &Option<Vec<FlatEntry>>, domain: &str)
    ensures
        final(s)@ == old(s)@ + graphml_keys(opt_entries(schema_view(*schema)), domain@),
{
    match schema {
        Some(k) => push_keys(s, k, domain),
        None => {
            assert(graphml_keys(seq![], domain@) == Seq::<char>::empty());
            assert(old(s)@ + Seq::<char>::empty() =~= old(s)@);
        },
    }
}

#[verifier::rlimit(100)]
fn labeled_to_graphml_helper<G: GraphTrait>(graph: &HashMapLabeledGraph<G>, directed: bool) -> (r: String)
    requires
        graph.model().wf(),
    ensures
        r@ == labeled_graphml_text(graph.model(), |v: VertexID| graph.vertex_label(v), |e: EdgeID| graph.edge_label(e), directed),
{
    let ghost vl = |v: VertexID| graph.vertex_label(v);
    let ghost el = |e: EdgeID| graph.edge_label(e);
    let verts = graph.vertices();
    let edges = graph.edges();
    let node_schema = vertex_schema(graph, &verts);
    let edge_schema = edge_schema(graph, &edges);
    let mut s = String::new();
    s.append("<?xml version=\"1.0\" encoding=\"UTF-8\"?>\n<graphml xmlns=\"http://graphml.graphdrawing.org/xmlns\" xmlns:xsi=\"http://www.w3.org/2001/XMLSchema-instance\" xsi:schemaLocation=\"http://graphml.graphdrawing.org/xmlns/1.0/graphml.xsd\">");
    push_schema(&mut s, &node_schema, "node");
    push_schema(&mut s, &edge_schema, "edge");
    let ghost keys = s@;
    push_graph_open(&mut s, directed);
    let ghost head = s@;
    push_labeled_nodes(&mut s, graph, &verts, node_schema.is_some());
    push_labeled_edges(&mut s, graph, &edges, edge_schema.is_some());
    let ghost body = labeled_nodes(verts@, vl, node_schema is Some) + labeled_edges(edges@, el, edge_schema is Some);
    assert(s@ == head + body);
    proof { lemma_labeled_len(verts@, edges@, vl, el, node_schema is Some, edge_schema is Some); }
    push_graph_close(&mut s, verts.len() == 0 && edges.len() == 0);
    assert(s@ =~= keys + graphml_graph(directed, body));
    s
}

proof fn lemma_labeled_len(vs: Seq<usize>, es: Seq<(usize, usize)>, vl: spec_fn(VertexID) -> Option<Tree>, el: spec_fn(EdgeID) -> Option<Tree>, ns: bool, xs: bool)
    ensures
        (labeled_nodes(vs, vl, ns) + labeled_edges(es, el, xs)).len() == 0 <==> (vs.len() == 0 && es.len() == 0),
{
    if vs.len() > 0 {
        assert(labeled_nodes(vs, vl, ns).len() > 0);
    }
    if es.len() > 0 {
        assert(labeled_edges(es, el, xs).len() > 0);
    }
}

/// Formats an undirected labeled graph as GraphML.
pub fn labeled_to_graphml_simple<G: SimpleGraph>(graph: HashMapLabeledGraph<G>) -> (r: String)
    requires
        graph.model().wf(),
    ensures
        r@ == labeled_graphml_text(graph.model(), |v: VertexID| graph.vertex_label(v), |e: EdgeID| graph.edge_label(e), false),
{
    labeled_to_graphml_helper(&graph, false)
}

/// Formats a directed labeled graph as GraphML.
pub fn labeled_to_graphml_digraph<G: DiGraph>(graph: HashMapLabeledGraph<G>) -> (r: String)
    requires
        graph.model().wf(),
    ensures
        r@ == labeled_graphml_text(graph.model(), |v: VertexID| graph.vertex_label(v), |e: EdgeID| graph.edge_label(e), true),
{
    labeled_to_graphml_helper(&graph, true)
}

} // verus!
