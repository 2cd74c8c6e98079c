//! The GML format: nested bracketed records of `key value` lines.
use vstd::prelude::*;
use crate::graph::{GraphTrait, GraphView, VertexID, EdgeID};
use crate::labeled::{HashMapLabeledGraph, check_labels};
use crate::bridge::TypedValue;
use crate::parse::{Parse, parse_map, is_word, word_after, after_word, gml_rec};
use crate::value::{record_get, keys_ascending, lemma_record_view_as_new, lemma_list_view_as_new};
use crate::graphml_read::{resort, resorted};
use crate::text::{decimal, signed_decimal, push_decimal, push_signed, push_usize, push_char};
use crate::value::{Value, Tree, list_view, record_view, lemma_list_view_index, lemma_record_view_index, lemma_list_view_len, lemma_record_view_len};

verus! {

/// One output line: indentation, body, line break.
pub open spec fn gml_line(ind: Seq<char>, body: Seq<char>) -> Seq<char> {
    ind + body + "\n"@
}

/// How a leaf is written after its key.
pub open spec fn gml_scalar(t: Tree) -> Seq<char> {
    match t {
        Tree::Null => "null"@,
        Tree::Int(i) => signed_decimal(i),
        Tree::Float(s) => s,
        Tree::Unsigned(u) => decimal(u as nat),
        Tree::Text(s) => "\""@ + s + "\""@,
        Tree::Bool(b) => if b { "true"@ } else { "false"@ },
        _ => seq![],
    }
}

/// The lines of the fields of a record, at indentation `ind`.
pub open spec fn gml_entries(m: Seq<(Seq<char>, Tree)>, ind: Seq<char>) -> Seq<char>
    decreases m,
{
    if m.len() == 0 {
        seq![]
    } else {
        gml_entries(m.drop_last(), ind) + gml_entry(m.last().0, m.last().1, ind)
    }
}

/// The lines of one field: a leaf on one line, a record or a list as a bracketed block.
pub open spec fn gml_entry(k: Seq<char>, t: Tree, ind: Seq<char>) -> Seq<char>
    decreases t,
{
    match t {
        Tree::Record(m) => gml_line(ind, k + " ["@) + gml_entries(m, ind + "\t"@) + gml_line(ind, "]"@),
        Tree::List(xs) => gml_line(ind, k + " ["@) + gml_items(xs, ind + "\t"@) + gml_line(ind, "]"@),
        _ => gml_line(ind, k + " "@ + gml_scalar(t)),
    }
}

/// The lines of the items of a list, each written as `gml_wrapped` writes it.
pub open spec fn gml_items(xs: Seq<Tree>, ind: Seq<char>) -> Seq<char>
    decreases xs,
{
    if xs.len() == 0 {
        seq![]
    } else {
        gml_items(xs.drop_last(), ind) + gml_wrapped(xs.last(), ind)
    }
}

/// A value written in place: a record as its fields, a list under a `data`
/// block, a text under the key `label`, another leaf under the key `data`,
/// a null as nothing.
pub open spec fn gml_wrapped(t: Tree, ind: Seq<char>) -> Seq<char>
    decreases t,
{
    match t {
        Tree::Record(m) => gml_entries(m, ind),
        Tree::List(xs) => gml_line(ind, "data"@ + " ["@) + gml_items(xs, ind + "\t"@) + gml_line(ind, "]"@),
        Tree::Null => seq![],
        Tree::Text(_) => gml_line(ind, "label"@ + " "@ + gml_scalar(t)),
        _ => gml_line(ind, "data"@ + " "@ + gml_scalar(t)),
    }
}

/// A value as the fields of a record: a record's own fields, a list or another
/// leaf under `data`, a text under `label`, a null as no field.
pub open spec fn wrap(t: Tree) -> Seq<(Seq<char>, Tree)> {
    match t {
        Tree::Record(m) => m,
        Tree::Null => seq![],
        Tree::Text(_) => seq![("label"@, t)],
        _ => seq![("data"@, t)],
    }
}

/// The fields that a value is written as in place.
pub fn wrap_value(val: Value) -> (r: Vec<(String, Value)>)
    ensures
        record_view(r@) == wrap(val@),
{
    proof { reveal_strlit("data"); reveal_strlit("label"); }
    match val {
        Value::Object(map) => map,
        Value::Null => {
            let r: Vec<(String, Value)> = Vec::new();
            assert(record_view(r@) =~= seq![]);
            r
        },
        Value::String(s) => {
            let ghost t = Tree::Text(s@);
            let mut r: Vec<(String, Value)> = Vec::new();
            r.push(("label".to_owned(), Value::String(s)));
            proof { crate::value::lemma_record_view_as_new(r@); }
            assert(record_view(r@) =~= seq![("label"@, t)]);
            r
        },
        other => {
            let ghost t = other@;
            let mut r: Vec<(String, Value)> = Vec::new();
            r.push(("data".to_owned(), other));
            proof { crate::value::lemma_record_view_as_new(r@); }
            assert(record_view(r@) =~= seq![("data"@, t)]);
            r
        },
    }
}

/// The lines of a label under a node or an edge: a record inside a `data`
/// block, anything else in place.
pub open spec fn gml_label(t: Tree, ind: Seq<char>) -> Seq<char> {
    match t {
        Tree::Record(m) => gml_line(ind, "data"@ + " ["@) + gml_entries(m, ind + "\t"@) + gml_line(ind, "]"@),
        _ => gml_wrapped(t, ind),
    }
}

/// A label with the fields of every record re-bound in ascending key order.
pub open spec fn norm(t: Tree) -> Tree
    decreases t,
{
    match t {
        Tree::Record(m) => Tree::Record(resort(norm_entries(m))),
        Tree::List(xs) => Tree::List(norm_list(xs)),
        _ => t,
    }
}

pub open spec fn norm_entries(m: Seq<(Seq<char>, Tree)>) -> Seq<(Seq<char>, Tree)>
    decreases m,
{
    if m.len() == 0 {
        seq![]
    } else {
        norm_entries(m.drop_last()).push((m.last().0, norm(m.last().1)))
    }
}

pub open spec fn norm_list(xs: Seq<Tree>) -> Seq<Tree>
    decreases xs,
{
    if xs.len() == 0 {
        seq![]
    } else {
        norm_list(xs.drop_last()).push(norm(xs.last()))
    }
}

/// The lines of an optional label, its records written in ascending key order.
pub open spec fn gml_opt_label(t: Option<Tree>, ind: Seq<char>) -> Seq<char> {
    match t {
        Some(t) => gml_label(norm(t), ind),
        None => seq![],
    }
}

/// A copy of a label with every record's fields in ascending key order.
pub fn normalize(v: &Value) -> (r: Value)
    ensures
        r@ == norm(v@),
    decreases v,
{
    match v {
        Value::Object(m) => {
            let mut out: Vec<(String, Value)> = Vec::new();
            let mut i: usize = 0;
            assert(record_view(out@) =~= seq![]);
            assert(record_view(m@).take(0) =~= seq![]);
            proof { lemma_record_view_len(m@); }
            while i < m.len()
                invariant
                    *v == Value::Object(*m),
                    i <= m@.len(),
                    record_view(m@).len() == m@.len(),
                    record_view(out@) == norm_entries(record_view(m@).take(i as int)),
                decreases m@.len() - i,
            {
                proof {
                    assert(decreases_to!(*v => v->Object_0));
                    assert(decreases_to!(v->Object_0 => v->Object_0@));
                    assert(decreases_to!(v->Object_0@ => v->Object_0@[i as int]));
                    assert(decreases_to!(v->Object_0@[i as int] => v->Object_0@[i as int].1));
                    lemma_record_view_index(m@, i as int);
                    assert(record_view(m@).take(i + 1).drop_last() =~= record_view(m@).take(i as int));
                    assert(record_view(m@).take(i + 1).last() == record_view(m@)[i as int]);
                }
                let ghost before = out@;
                let n = normalize(&m[i].1);
                out.push((m[i].0.clone(), n));
                proof {
                    lemma_record_view_as_new(before);
                    lemma_record_view_as_new(out@);
                    assert(record_view(out@) =~= record_view(before).push((m@[i as int].0@, n@)));
                }
                i = i + 1;
            }
            assert(record_view(m@).take(m@.len() as int) =~= record_view(m@));
            Value::Object(resorted(out))
        },
        Value::Array(xs) => {
            let mut out: Vec<Value> = Vec::new();
            let mut i: usize = 0;
            assert(list_view(out@) =~= seq![]);
            assert(list_view(xs@).take(0) =~= seq![]);
            proof { lemma_list_view_len(xs@); }
            while i < xs.len()
                invariant
                    *v == Value::Array(*xs),
                    i <= xs@.len(),
                    list_view(xs@).len() == xs@.len(),
                    list_view(out@) == norm_list(list_view(xs@).take(i as int)),
                decreases xs@.len() - i,
            {
                proof {
                    assert(decreases_to!(*v => v->Array_0));
                    assert(decreases_to!(v->Array_0 => v->Array_0@));
                    assert(decreases_to!(v->Array_0@ => v->Array_0@[i as int]));
                    lemma_list_view_index(xs@, i as int);
                    assert(list_view(xs@).take(i + 1).drop_last() =~= list_view(xs@).take(i as int));
                    assert(list_view(xs@).take(i + 1).last() == list_view(xs@)[i as int]);
                }
                let ghost before = out@;
                let n = normalize(&xs[i]);
                out.push(n);
                proof {
                    lemma_list_view_as_new(before);
                    lemma_list_view_as_new(out@);
                    assert(list_view(out@) =~= list_view(before).push(n@));
                }
                i = i + 1;
            }
            assert(list_view(xs@).take(xs@.len() as int) =~= list_view(xs@));
            Value::Array(out)
        },
        _ => v.duplicate(),
    }
}

/// The node blocks, in the order of `vs`.
pub open spec fn gml_nodes(vs: Seq<usize>, vl: spec_fn(VertexID) -> Option<Tree>) -> Seq<char>
    decreases vs.len(),
{
    if vs.len() == 0 {
        seq![]
    } else {
        gml_nodes(vs.drop_last(), vl) + "\tnode [\n\t\tid "@ + decimal(vs.last() as nat) + "\n"@
            + gml_opt_label(vl(vs.last()), "\t\t"@) + "\t]\n"@
    }
}

/// The edge blocks, in the order of `es`.
pub open spec fn gml_edges(es: Seq<(usize, usize)>, el: spec_fn(EdgeID) -> Option<Tree>) -> Seq<char>
    decreases es.len(),
{
    if es.len() == 0 {
        seq![]
    } else {
        gml_edges(es.drop_last(), el) + "\tedge [\n\t\tsource "@ + decimal(es.last().0 as nat) + "\n\t\ttarget "@
            + decimal(es.last().1 as nat) + "\n"@ + gml_opt_label(el(es.last()), "\t\t"@) + "\t]\n"@
    }
}

/// The GML document of a graph whose vertices and edges carry the labels `vl` and `el`.
pub open spec fn gml_text(m: GraphView, vl: spec_fn(VertexID) -> Option<Tree>, el: spec_fn(EdgeID) -> Option<Tree>) -> Seq<char> {
    "graph [\n"@ + gml_nodes(m.vertices, vl) + gml_edges(m.edges, el) + "]"@
}

/// Appends a leaf as GML writes it after a key.
fn push_scalar(s: &mut String, v: &Value)
    ensures
        final(s)@ == old(s)@ + gml_scalar(v@),
{
    match v {
        Value::Null => s.append("null"),
        Value::Int(i) => push_signed(s, *i),
        Value::Float(t) => s.append(t.as_str()),
        Value::Unsigned(u) => push_decimal(s, *u),
        Value::String(t) => {
            s.append("\"");
            s.append(t.as_str());
            s.append("\"");
        },
        Value::Bool(b) => if *b { s.append("true") } else { s.append("false") },
        _ => {},
    }
}

/// Appends a line of a leaf field.
fn push_scalar_line(s: &mut String, ind: &String, key: &str, v: &Value)
    requires
        v@ is Null || v@ is Int || v@ is Float || v@ is Unsigned || v@ is Text || v@ is Bool,
    ensures
        final(s)@ == old(s)@ + gml_line(ind@, key@ + " "@ + gml_scalar(v@)),
{
    s.append(ind.as_str());
    s.append(key);
    s.append(" ");
    push_scalar(s, v);
    s.append("\n");
}

/// Appends a line `ind` + `body`.
fn push_line(s: &mut String, ind: &String, body: &str)
    ensures
        final(s)@ == old(s)@ + gml_line(ind@, body@),
{
    s.append(ind.as_str());
    s.append(body);
    s.append("\n");
}

/// Appends the line that opens a block under `key`.
fn push_open(s: &mut String, ind: &String, key: &str)
    ensures
        final(s)@ == old(s)@ + gml_line(ind@, key@ + " ["@),
{
    s.append(ind.as_str());
    s.append(key);
    s.append(" [");
    s.append("\n");
}

/// One level deeper than `ind`.
fn deeper(ind: &String) -> (r: String)
    ensures
        r@ == ind@ + "\t"@,
{
    let mut r = ind.clone();
    r.append("\t");
    r
}

/// Appends the fields of a record.
fn write_entries(s: &mut String, m: &Vec<(String, Value)>, ind: &String)
    ensures
        final(s)@ == old(s)@ + gml_entries(record_view(m@), ind@),
    decreases m,
{
    let ghost start = s@;
    let mut i: usize = 0;
    while i < m.len()
        invariant
            i <= m@.len(),
            s@ == start + gml_entries(record_view(m@).take(i as int), ind@),
        decreases m@.len() - i,
    {
        proof {
            assert(decreases_to!(*m => m@));
            assert(decreases_to!(m@ => m@[i as int]));
            assert(decreases_to!(m@[i as int] => m@[i as int].1));
            lemma_record_view_index(m@, i as int);
            assert(record_view(m@).take(i + 1).drop_last() == record_view(m@).take(i as int));
        }
        write_entry(s, m[i].0.as_str(), &m[i].1, ind);
        i = i + 1;
    }
    proof {
        lemma_record_view_len(m@);
        assert(record_view(m@).take(m@.len() as int) == record_view(m@));
    }
}

/// Appends one field.
fn write_entry(s: &mut String, key: &str, v: &Value, ind: &String)
    ensures
        final(s)@ == old(s)@ + gml_entry(key@, v@, ind@),
    decreases v,
{
    match v {
        Value::Object(m) => {
            proof { assert(decreases_to!(*v => v->Object_0)); }
            push_open(s, ind, key);
            write_entries(s, m, &deeper(ind));
            push_line(s, ind, "]");
        },
        Value::Array(xs) => {
            proof { assert(decreases_to!(*v => v->Array_0)); }
            push_open(s, ind, key);
            write_items(s, xs, &deeper(ind));
            push_line(s, ind, "]");
        },
        _ => push_scalar_line(s, ind, key, v),
    }
}

/// Appends the items of a list.
fn write_items(s: &mut String, xs: &Vec<Value>, ind: &String)
    ensures
        final(s)@ == old(s)@ + gml_items(list_view(xs@), ind@),
    decreases xs,
{
    let ghost start = s@;
    let mut i: usize = 0;
    while i < xs.len()
        invariant
            i <= xs@.len(),
            s@ == start + gml_items(list_view(xs@).take(i as int), ind@),
        decreases xs@.len() - i,
    {
        proof {
            assert(decreases_to!(*xs => xs@));
            assert(decreases_to!(xs@ => xs@[i as int]));
            lemma_list_view_index(xs@, i as int);
            assert(list_view(xs@).take(i + 1).drop_last() == list_view(xs@).take(i as int));
        }
        write_wrapped(s, &xs[i], ind);
        i = i + 1;
    }
    proof {
        lemma_list_view_len(xs@);
        assert(list_view(xs@).take(xs@.len() as int) == list_view(xs@));
    }
}

/// Appends a value in place.
fn write_wrapped(s: &mut String, v: &Value, ind: &String)
    ensures
        final(s)@ == old(s)@ + gml_wrapped(v@, ind@),
    decreases v,
{
    match v {
        Value::Object(m) => {
            proof { assert(decreases_to!(*v => v->Object_0)); }
            write_entries(s, m, ind);
        },
        Value::Array(xs) => {
            proof { assert(decreases_to!(*v => v->Array_0)); }
            push_open(s, ind, "data");
            write_items(s, xs, &deeper(ind));
            push_line(s, ind, "]");
        },
        Value::Null => {},
        Value::String(_) => push_scalar_line(s, ind, "label", v),
        _ => push_scalar_line(s, ind, "data", v),
    }
}

/// Appends the label of a node or an edge.
fn write_label(s: &mut String, v: &Value, ind: &String)
    ensures
        final(s)@ == old(s)@ + gml_label(v@, ind@),
{
    match v {
        Value::Object(m) => {
            push_open(s, ind, "data");
            write_entries(s, m, &deeper(ind));
            push_line(s, ind, "]");
        },
        _ => write_wrapped(s, v, ind),
    }
}

pub open spec fn opt_view(o: Option<&Value>) -> Option<Tree> {
    match o {
        Some(v) => Some(v@),
        None => None,
    }
}

/// Appends one node block.
fn push_node(s: &mut String, v: VertexID, label: Option<&Value>)
    ensures
        final(s)@ == old(s)@ + "\tnode [\n\t\tid "@ + decimal(v as nat) + "\n"@ + gml_opt_label(opt_view(label), "\t\t"@) + "\t]\n"@,
{
    s.append("\tnode [\n\t\tid ");
    push_usize(s, v);
    s.append("\n");
    if let Some(l) = label {
        let mut ind = String::new();
        ind.append("\t\t");
        write_label(s, &normalize(l), &ind);
    }
    s.append("\t]\n");
}

/// Appends one edge block.
fn push_edge(s: &mut String, e: EdgeID, label: Option<&Value>)
    ensures
        final(s)@ == old(s)@ + "\tedge [\n\t\tsource "@ + decimal(e.0 as nat) + "\n\t\ttarget "@ + decimal(e.1 as nat)
            + "\n"@ + gml_opt_label(opt_view(label), "\t\t"@) + "\t]\n"@,
{
    s.append("\tedge [\n\t\tsource ");
    push_usize(s, e.0);
    s.append("\n\t\ttarget ");
    push_usize(s, e.1);
    s.append("\n");
    if let Some(l) = label {
        let mut ind = String::new();
        ind.append("\t\t");
        write_label(s, &normalize(l), &ind);
    }
    s.append("\t]\n");
}

/// Formats a graph as GML, without labels.
pub fn to_gml<G: GraphTrait>(g: G) -> (r: String)
    requires
        g.model().wf(),
    ensures
        r@ == gml_text(g.model(), |v: VertexID| None, |e: EdgeID| None),
{
    let ghost vl = |v: VertexID| -> Option<Tree> { None };
    let ghost el = |e: EdgeID| -> Option<Tree> { None };
    let mut s = String::new();
    s.append("graph [\n");
    let verts = g.vertices();
    let mut i: usize = 0;
    while i < verts.len()
        invariant
            i <= verts@.len(),
            verts@ == g.model().vertices,
            forall|v: VertexID| #[trigger] vl(v) == None::<Tree>,
            s@ == "graph [\n"@ + gml_nodes(verts@.take(i as int), vl),
        decreases verts@.len() - i,
    {
        assert(verts@.take(i + 1).drop_last() == verts@.take(i as int));
        push_node(&mut s, verts[i], None);
        assert(vl(verts@[i as int]) == opt_view(None));
        assert(s@ =~= "graph [\n"@ + gml_nodes(verts@.take(i + 1), vl));
        i = i + 1;
    }
    assert(verts@.take(verts@.len() as int) == verts@);
    let ghost head = s@;
    let edges = g.edges();
    let mut j: usize = 0;
    while j < edges.len()
        invariant
            j <= edges@.len(),
            edges@ == g.model().edges,
            forall|e: EdgeID| #[trigger] el(e) == None::<Tree>,
            s@ == head + gml_edges(edges@.take(j as int), el),
        decreases edges@.len() - j,
    {
        assert(edges@.take(j + 1).drop_last() == edges@.take(j as int));
        push_edge(&mut s, edges[j], None);
        assert(el(edges@[j as int]) == opt_view(None));
        assert(s@ =~= head + gml_edges(edges@.take(j + 1), el));
        j = j + 1;
    }
    assert(edges@.take(edges@.len() as int) == edges@);
    s.append("]");
    s
}

/// Formats a labeled graph as GML: each label under its node or edge.
pub fn labeled_to_gml<G: GraphTrait>(g: &HashMapLabeledGraph<G>) -> (r: String)
    requires
        g.model().wf(),
    ensures
        r@ == gml_text(g.model(), |v: VertexID| g.vertex_label(v), |e: EdgeID| g.edge_label(e)),
{
    let ghost vl = |v: VertexID| g.vertex_label(v);
    let ghost el = |e: EdgeID| g.edge_label(e);
    let mut s = String::new();
    s.append("graph [\n");
    let verts = g.vertices();
    let mut i: usize = 0;
    while i < verts.len()
        invariant
            i <= verts@.len(),
            g.model().wf(),
            verts@ == g.model().vertices,
            forall|v: VertexID| #[trigger] vl(v) == g.vertex_label(v),
            s@ == "graph [\n"@ + gml_nodes(verts@.take(i as int), vl),
        decreases verts@.len() - i,
    {
        assert(verts@.take(i + 1).drop_last() == verts@.take(i as int));
        let label = g.get_vertex_label(verts[i]);
        push_node(&mut s, verts[i], label);
        assert(vl(verts@[i as int]) == opt_view(label));
        assert(s@ =~= "graph [\n"@ + gml_nodes(verts@.take(i + 1), vl));
        i = i + 1;
    }
    assert(verts@.take(verts@.len() as int) == verts@);
    let ghost head = s@;
    let edges = g.edges();
    let mut j: usize = 0;
    while j < edges.len()
        invariant
            j <= edges@.len(),
            g.model().wf(),
            edges@ == g.model().edges,
            forall|e: EdgeID| #[trigger] el(e) == g.edge_label(e),
            s@ == head + gml_edges(edges@.take(j as int), el),
        decreases edges@.len() - j,
    {
        assert(edges@.take(j + 1).drop_last() == edges@.take(j as int));
        let label = g.get_edge_label(edges[j]);
        push_edge(&mut s, edges[j], label);
        assert(el(edges@[j as int]) == opt_view(label));
        assert(s@ =~= head + gml_edges(edges@.take(j + 1), el));
        j = j + 1;
    }
    assert(edges@.take(edges@.len() as int) == edges@);
    s.append("]");
    s
}

/// The value bound to `key` in a record.
pub fn record_lookup<'a>(m: &'a Vec<(String, Value)>, key: &str) -> (r: Option<&'a Value>)
    ensures
        r is None <==> record_get(record_view(m@), key@) is None,
        r matches Some(v) ==> record_get(record_view(m@), key@) == Some(v@),
{
    proof { lemma_record_view_len(m@); }
    let mut i: usize = m.len();
    assert(record_view(m@).take(i as int) == record_view(m@));
    while i > 0
        invariant
            i <= m@.len(),
            record_view(m@).len() == m@.len(),
            record_get(record_view(m@), key@) == record_get(record_view(m@).take(i as int), key@),
        decreases i,
    {
        proof { lemma_record_view_index(m@, i - 1); }
        assert(record_view(m@).take(i as int).drop_last() == record_view(m@).take(i - 1));
        if is_word(m[i - 1].0.as_str(), key) {
            return Some(&m[i - 1].1);
        }
        i = i - 1;
    }
    None
}

/// The records under a key: one record, the items of a list, or none.
pub open spec fn gml_items_of(t: Option<Tree>) -> Seq<Tree> {
    match t {
        Some(Tree::Record(m)) => seq![Tree::Record(m)],
        Some(Tree::List(xs)) => xs,
        _ => seq![],
    }
}

/// A vertex id held by a field.
pub open spec fn id_field(m: Seq<(Seq<char>, Tree)>, key: Seq<char>) -> Option<usize> {
    match record_get(m, key) {
        Some(Tree::Unsigned(u)) => if u <= usize::MAX { Some(u as usize) } else { None },
        _ => None,
    }
}

/// The id of a node record, if it is one.
pub open spec fn gml_node_id(t: Tree) -> Option<usize> {
    match t {
        Tree::Record(m) => id_field(m, "id"@),
        _ => None,
    }
}

/// The ends of an edge record, if it is one.
pub open spec fn gml_edge_ends(t: Tree) -> Option<(usize, usize)> {
    match t {
        Tree::Record(m) => if id_field(m, "source"@) is Some && id_field(m, "target"@) is Some {
            Some((id_field(m, "source"@)->0, id_field(m, "target"@)->0))
        } else {
            None
        },
        _ => None,
    }
}

/// The record of a GML graph describes a graph: every node has an id and every edge its two ends.
pub open spec fn gml_describes(doc: Seq<(Seq<char>, Tree)>) -> bool {
    &&& forall|k: int| 0 <= k < gml_items_of(record_get(doc, "node"@)).len() ==> #[trigger] gml_node_id(gml_items_of(record_get(doc, "node"@))[k]) is Some
    &&& forall|k: int| 0 <= k < gml_items_of(record_get(doc, "edge"@)).len() ==> #[trigger] gml_edge_ends(gml_items_of(record_get(doc, "edge"@))[k]) is Some
}

/// The message for a node record without a usable id.
pub open spec fn gml_node_error(t: Tree) -> Seq<char> {
    if t is Record { "Missing or invalid ID"@ } else { "Invalid GML format."@ }
}

/// The message for an edge record without usable ends.
pub open spec fn gml_edge_error(t: Tree) -> Seq<char> {
    match t {
        Tree::Record(m) => if id_field(m, "source"@) is None { "Missing or invalid source"@ } else { "Missing or invalid target"@ },
        _ => "Invalid GML format."@,
    }
}

/// The message of the first node record without a usable id, if any.
pub open spec fn first_node_error(items: Seq<Tree>) -> Option<Seq<char>>
    decreases items.len(),
{
    if items.len() == 0 {
        None
    } else if gml_node_id(items[0]) is None {
        Some(gml_node_error(items[0]))
    } else {
        first_node_error(items.drop_first())
    }
}

/// The message of the first edge record without usable ends, if any.
pub open spec fn first_edge_error(items: Seq<Tree>) -> Option<Seq<char>>
    decreases items.len(),
{
    if items.len() == 0 {
        None
    } else if gml_edge_ends(items[0]) is None {
        Some(gml_edge_error(items[0]))
    } else {
        first_edge_error(items.drop_first())
    }
}

/// The message that reading the graph of a record fails with: that of the
/// first bad node record, else that of the first bad edge record.
pub open spec fn gml_graph_error(doc: Seq<(Seq<char>, Tree)>) -> Seq<char> {
    match first_node_error(gml_items_of(record_get(doc, "node"@))) {
        Some(e) => e,
        None => first_edge_error(gml_items_of(record_get(doc, "edge"@)))->0,
    }
}

proof fn lemma_first_node_error(items: Seq<Tree>, i: int)
    requires
        0 <= i <= items.len(),
        forall|k: int| 0 <= k < i ==> #[trigger] gml_node_id(items[k]) is Some,
    ensures
        first_node_error(items) == first_node_error(items.skip(i)),
    decreases i,
{
    if i > 0 {
        lemma_first_node_error(items.drop_first(), i - 1);
        assert(items.drop_first().skip(i - 1) =~= items.skip(i));
        assert(gml_node_id(items[0]) is Some);
    } else {
        assert(items.skip(0) =~= items);
    }
}

proof fn lemma_first_edge_error(items: Seq<Tree>, i: int)
    requires
        0 <= i <= items.len(),
        forall|k: int| 0 <= k < i ==> #[trigger] gml_edge_ends(items[k]) is Some,
    ensures
        first_edge_error(items) == first_edge_error(items.skip(i)),
    decreases i,
{
    if i > 0 {
        lemma_first_edge_error(items.drop_first(), i - 1);
        assert(items.drop_first().skip(i - 1) =~= items.skip(i));
        assert(gml_edge_ends(items[0]) is Some);
    } else {
        assert(items.skip(0) =~= items);
    }
}

/// The graph holds exactly the nodes and edges of the record.
pub open spec fn gml_graph_of<G: GraphTrait>(m: GraphView, doc: Seq<(Seq<char>, Tree)>) -> bool {
    let nodes = gml_items_of(record_get(doc, "node"@));
    let edges = gml_items_of(record_get(doc, "edge"@));
    &&& m.wf()
    &&& forall|u: usize| #[trigger] m.vertices.contains(u) <==> (
        (exists|k: int| 0 <= k < nodes.len() && gml_node_id(#[trigger] nodes[k]) == Some(u))
        || (exists|k: int| 0 <= k < edges.len() && (#[trigger] gml_edge_ends(edges[k]) matches Some(e) && (e.0 == u || e.1 == u))))
    &&& forall|p: EdgeID| #[trigger] m.edges.contains(p) <==> exists|k: int| 0 <= k < edges.len() && (#[trigger] gml_edge_ends(edges[k]) matches Some(e) && p == G::edge_key(e))
}

/// The label of a node or edge record: its `data` field, else its `label` field.
pub open spec fn record_label_of(m: Seq<(Seq<char>, Tree)>) -> Option<Tree> {
    match record_get(m, "data"@) {
        Some(x) => Some(x),
        None => record_get(m, "label"@),
    }
}

/// The label that a node or edge record carries, if any.
pub open spec fn glabel(t: Tree) -> Option<Tree> {
    match t {
        Tree::Record(m) => record_label_of(m),
        _ => None,
    }
}

/// The label of the last node record with id `u` that carries one.
pub open spec fn gml_vlabel(nodes: Seq<Tree>, u: VertexID) -> Option<Tree>
    decreases nodes.len(),
{
    if nodes.len() == 0 {
        None
    } else if gml_node_id(nodes.last()) == Some(u) && glabel(nodes.last()) is Some {
        glabel(nodes.last())
    } else {
        gml_vlabel(nodes.drop_last(), u)
    }
}

/// The label of the last edge record stored like `f` that carries one.
pub open spec fn gml_elabel<G: GraphTrait>(edges: Seq<Tree>, f: EdgeID) -> Option<Tree>
    decreases edges.len(),
{
    if edges.len() == 0 {
        None
    } else if gml_edge_ends(edges.last()) matches Some(e) && G::edge_key(e) == G::edge_key(f) && glabel(edges.last()) is Some {
        glabel(edges.last())
    } else {
        gml_elabel::<G>(edges.drop_last(), f)
    }
}

fn record_label(m: &Vec<(String, Value)>) -> (r: Option<&Value>)
    ensures
        opt_view(r) == record_label_of(record_view(m@)),
{
    proof { reveal_strlit("data"); reveal_strlit("label"); }
    match record_lookup(m, "data") {
        Some(v) => Some(v),
        None => record_lookup(m, "label"),
    }
}

/// Reads a vertex id field.
fn read_id(m: &Vec<(String, Value)>, key: &str) -> (r: Option<usize>)
    ensures
        r == id_field(record_view(m@), key@),
{
    match record_lookup(m, key) {
        Some(Value::Unsigned(u)) => if *u <= usize::MAX as u64 { Some(*u as usize) } else { None },
        _ => None,
    }
}

/// Adds the vertex of a node record.
fn add_gml_node<G: GraphTrait>(g: &mut G, node: &Value) -> (r: Result<(), String>)
    requires
        old(g).model().wf(),
    ensures
        final(g).model().wf(),
        r is Ok <==> gml_node_id(node@) is Some,
        r matches Err(m) ==> m@ == gml_node_error(node@),
        r is Ok ==> forall|u: usize| #[trigger] final(g).model().vertices.contains(u) <==> (old(g).model().vertices.contains(u) || Some(u) == gml_node_id(node@)),
        r is Ok ==> final(g).model().edges == old(g).model().edges,
{
    match node {
        Value::Object(m) => {
            proof { reveal_strlit("id"); }
            let id = match read_id(m, "id") {
                Some(id) => id,
                None => {
                    return Err("Missing or invalid ID".to_owned());
                },
            };
            g.add_vertex(id);
            Ok(())
        },
        _ => Err("Invalid GML format.".to_owned()),
    }
}

/// Adds the edge of an edge record.
fn add_gml_edge<G: GraphTrait>(g: &mut G, edge: &Value) -> (r: Result<(), String>)
    requires
        old(g).model().wf(),
    ensures
        final(g).model().wf(),
        r is Ok <==> gml_edge_ends(edge@) is Some,
        r matches Err(m) ==> m@ == gml_edge_error(edge@),
        r is Ok ==> forall|u: usize| #[trigger] final(g).model().vertices.contains(u) <==> (old(g).model().vertices.contains(u) || u == (gml_edge_ends(edge@)->0).0 || u == (gml_edge_ends(edge@)->0).1),
        r is Ok ==> forall|p: EdgeID| #[trigger] final(g).model().edges.contains(p) <==> (old(g).model().edges.contains(p) || p == G::edge_key(gml_edge_ends(edge@)->0)),
{
    match edge {
        Value::Object(m) => {
            proof { reveal_strlit("source"); reveal_strlit("target"); }
            let source = match read_id(m, "source") {
                Some(id) => id,
                None => {
                    return Err("Missing or invalid source".to_owned());
                },
            };
            let target = match read_id(m, "target") {
                Some(id) => id,
                None => {
                    return Err("Missing or invalid target".to_owned());
                },
            };
            g.add_edge((source, target));
            Ok(())
        },
        _ => Err("Invalid GML format.".to_owned()),
    }
}

/// Adds the vertices of the node records.
fn add_gml_nodes<G: GraphTrait>(g: &mut G, v: Option<&Value>) -> (r: Result<(), String>)
    requires
        old(g).model().wf(),
    ensures
        final(g).model().wf(),
        r is Ok <==> forall|k: int| 0 <= k < gml_items_of(opt_view(v)).len() ==> #[trigger] gml_node_id(gml_items_of(opt_view(v))[k]) is Some,
        r matches Err(m) ==> first_node_error(gml_items_of(opt_view(v))) == Some(m@),
        r is Ok ==> forall|u: usize| #[trigger] final(g).model().vertices.contains(u) <==> (old(g).model().vertices.contains(u)
            || exists|k: int| 0 <= k < gml_items_of(opt_view(v)).len() && gml_node_id(#[trigger] gml_items_of(opt_view(v))[k]) == Some(u)),
        r is Ok ==> final(g).model().edges == old(g).model().edges,
{
    match v {
        Some(Value::Object(_)) => {
            let node = v.unwrap();
            let r = add_gml_node(g, node);
            proof {
                let items = gml_items_of(opt_view(v));
                assert(items =~= seq![node@]);
                if r is Ok {
                    assert forall|u: usize| #[trigger] g.model().vertices.contains(u) <==> (old(g).model().vertices.contains(u)
                        || exists|k: int| 0 <= k < items.len() && gml_node_id(#[trigger] items[k]) == Some(u)) by {
                        if Some(u) == gml_node_id(node@) {
                            assert(gml_node_id(items[0]) == Some(u));
                        }
                    }
                }
            }
            r
        },
        Some(Value::Array(xs)) => {
            let ghost items = gml_items_of(opt_view(v));
            proof { lemma_list_view_len(xs@); }
            assert(items == list_view(xs@));
            let mut i: usize = 0;
            while i < xs.len()
                invariant
                    g.model().wf(),
                    items == gml_items_of(opt_view(v)),
                    items == list_view(xs@),
                    items.len() == xs@.len(),
                    i <= xs@.len(),
                    forall|k: int| 0 <= k < i ==> #[trigger] gml_node_id(items[k]) is Some,
                    forall|u: usize| #[trigger] g.model().vertices.contains(u) <==> (old(g).model().vertices.contains(u)
                        || exists|k: int| 0 <= k < i && gml_node_id(#[trigger] items[k]) == Some(u)),
                    g.model().edges == old(g).model().edges,
                decreases xs@.len() - i,
            {
                proof { lemma_list_view_index(xs@, i as int); }
                let ghost before = g.model();
                match add_gml_node(g, &xs[i]) {
                    Ok(()) => {},
                    Err(e) => {
                        assert(items[i as int] == xs@[i as int]@);
                        assert(gml_node_id(items[i as int]) is None);
                        proof {
                            lemma_first_node_error(items, i as int);
                            assert(items.skip(i as int)[0] == items[i as int]);
                        }
                        return Err(e);
                    },
                }
                assert forall|u: usize| #[trigger] g.model().vertices.contains(u) <==> (old(g).model().vertices.contains(u)
                    || exists|k: int| 0 <= k < i + 1 && gml_node_id(#[trigger] items[k]) == Some(u)) by {
                    if exists|k: int| 0 <= k < i + 1 && gml_node_id(#[trigger] items[k]) == Some(u) {
                        let k = choose|k: int| 0 <= k < i + 1 && gml_node_id(#[trigger] items[k]) == Some(u);
                        if k < i {
                            assert(before.vertices.contains(u));
                        }
                    }
                    if Some(u) == gml_node_id(items[i as int]) {
                        assert(gml_node_id(items[i as int]) == Some(u));
                    }
                }
                i = i + 1;
            }
            Ok(())
        },
        _ => {
            assert(gml_items_of(opt_view(v)).len() == 0);
            Ok(())
        },
    }
}

/// Adds the edges of the edge records.
fn add_gml_edges<G: GraphTrait>(g: &mut G, v: Option<&Value>) -> (r: Result<(), String>)
    requires
        old(g).model().wf(),
    ensures
        final(g).model().wf(),
        r is Ok <==> forall|k: int| 0 <= k < gml_items_of(opt_view(v)).len() ==> #[trigger] gml_edge_ends(gml_items_of(opt_view(v))[k]) is Some,
        r matches Err(m) ==> first_edge_error(gml_items_of(opt_view(v))) == Some(m@),
        r is Ok ==> forall|u: usize| #[trigger] final(g).model().vertices.contains(u) <==> (old(g).model().vertices.contains(u)
            || exists|k: int| 0 <= k < gml_items_of(opt_view(v)).len() && (#[trigger] gml_edge_ends(gml_items_of(opt_view(v))[k]) matches Some(e) && (e.0 == u || e.1 == u))),
        r is Ok ==> forall|p: EdgeID| #[trigger] final(g).model().edges.contains(p) <==> (old(g).model().edges.contains(p)
            || exists|k: int| 0 <= k < gml_items_of(opt_view(v)).len() && (#[trigger] gml_edge_ends(gml_items_of(opt_view(v))[k]) matches Some(e) && p == G::edge_key(e))),
{
    match v {
        Some(Value::Object(_)) => {
            let edge = v.unwrap();
            let r = add_gml_edge(g, edge);
            proof {
                let items = gml_items_of(opt_view(v));
                assert(items =~= seq![edge@]);
                if r is Ok {
                    assert forall|u: usize| #[trigger] g.model().vertices.contains(u) <==> (old(g).model().vertices.contains(u)
                        || exists|k: int| 0 <= k < items.len() && (#[trigger] gml_edge_ends(items[k]) matches Some(e) && (e.0 == u || e.1 == u))) by {
                        assert(gml_edge_ends(items[0]) == gml_edge_ends(edge@));
                    }
                    assert forall|p: EdgeID| #[trigger] g.model().edges.contains(p) <==> (old(g).model().edges.contains(p)
                        || exists|k: int| 0 <= k < items.len() && (#[trigger] gml_edge_ends(items[k]) matches Some(e) && p == G::edge_key(e))) by {
                        assert(gml_edge_ends(items[0]) == gml_edge_ends(edge@));
                    }
                }
            }
            r
        },
        Some(Value::Array(xs)) => {
            let ghost items = gml_items_of(opt_view(v));
            proof { lemma_list_view_len(xs@); }
            assert(items == list_view(xs@));
            let mut i: usize = 0;
            while i < xs.len()
                invariant
                    g.model().wf(),
                    items == gml_items_of(opt_view(v)),
                    items == list_view(xs@),
                    items.len() == xs@.len(),
                    i <= xs@.len(),
                    forall|k: int| 0 <= k < i ==> #[trigger] gml_edge_ends(items[k]) is Some,
                    forall|u: usize| #[trigger] g.model().vertices.contains(u) <==> (old(g).model().vertices.contains(u)
                        || exists|k: int| 0 <= k < i && (#[trigger] gml_edge_ends(items[k]) matches Some(e) && (e.0 == u || e.1 == u))),
                    forall|p: EdgeID| #[trigger] g.model().edges.contains(p) <==> (old(g).model().edges.contains(p)
                        || exists|k: int| 0 <= k < i && (#[trigger] gml_edge_ends(items[k]) matches Some(e) && p == G::edge_key(e))),
                decreases xs@.len() - i,
            {
                proof { lemma_list_view_index(xs@, i as int); }
                let ghost before = g.model();
                match add_gml_edge(g, &xs[i]) {
                    Ok(()) => {},
                    Err(e) => {
                        assert(items[i as int] == xs@[i as int]@);
                        assert(gml_edge_ends(items[i as int]) is None);
                        proof {
                            lemma_first_edge_error(items, i as int);
                            assert(items.skip(i as int)[0] == items[i as int]);
                        }
                        return Err(e);
                    },
                }
                assert forall|u: usize| #[trigger] g.model().vertices.contains(u) <==> (old(g).model().vertices.contains(u)
                    || exists|k: int| 0 <= k < i + 1 && (#[trigger] gml_edge_ends(items[k]) matches Some(e) && (e.0 == u || e.1 == u))) by {
                    if exists|k: int| 0 <= k < i + 1 && (#[trigger] gml_edge_ends(items[k]) matches Some(e) && (e.0 == u || e.1 == u)) {
                        let k = choose|k: int| 0 <= k < i + 1 && (#[trigger] gml_edge_ends(items[k]) matches Some(e) && (e.0 == u || e.1 == u));
                        if k < i {
                            assert(before.vertices.contains(u));
                        }
                    }
                }
                assert forall|p: EdgeID| #[trigger] g.model().edges.contains(p) <==> (old(g).model().edges.contains(p)
                    || exists|k: int| 0 <= k < i + 1 && (#[trigger] gml_edge_ends(items[k]) matches Some(e) && p == G::edge_key(e))) by {
                    if exists|k: int| 0 <= k < i + 1 && (#[trigger] gml_edge_ends(items[k]) matches Some(e) && p == G::edge_key(e)) {
                        let k = choose|k: int| 0 <= k < i + 1 && (#[trigger] gml_edge_ends(items[k]) matches Some(e) && p == G::edge_key(e));
                        if k < i {
                            assert(before.edges.contains(p));
                        }
                    }
                }
                i = i + 1;
            }
            Ok(())
        },
        _ => {
            assert(gml_items_of(opt_view(v)).len() == 0);
            Ok(())
        },
    }
}

/// Attaches the label of one node record, where it has an id in the graph and a label.
fn label_gml_node<G: GraphTrait>(g: &mut HashMapLabeledGraph<G>, node: &Value)
    requires
        old(g).model().wf(),
    ensures
        final(g).model() == old(g).model(),
        forall|u: VertexID| old(g).model().vertices.contains(u) ==> #[trigger] final(g).vertex_label(u) ==
            (if gml_node_id(node@) == Some(u) && glabel(node@) is Some { glabel(node@) } else { old(g).vertex_label(u) }),
        forall|f: EdgeID| #[trigger] final(g).edge_label(f) == old(g).edge_label(f),
{
    proof { reveal_strlit("id"); }
    if let Value::Object(m) = node {
        if let Some(id) = read_id(m, "id") {
            if let Some(l) = record_label(m) {
                if g.contains(id) {
                    let ghost g0 = g.model();
                    g.set_vertex_label(id, l.duplicate());
                    proof { crate::laws::lemma_same_sets_same_model(g.model(), g0); }
                }
            }
        }
    }
}

/// Attaches the label of one edge record, where its ends and edge are in the graph.
fn label_gml_edge<G: GraphTrait>(g: &mut HashMapLabeledGraph<G>, edge: &Value)
    requires
        old(g).model().wf(),
    ensures
        final(g).model() == old(g).model(),
        forall|u: VertexID| old(g).model().vertices.contains(u) ==> #[trigger] final(g).vertex_label(u) == old(g).vertex_label(u),
        forall|f: EdgeID| old(g).model().edges.contains(G::edge_key(f)) ==> #[trigger] final(g).edge_label(f) ==
            (if (gml_edge_ends(edge@) matches Some(e) && G::edge_key(e) == G::edge_key(f)
                && old(g).model().vertices.contains(e.0) && old(g).model().vertices.contains(e.1)) && glabel(edge@) is Some
                { glabel(edge@) } else { old(g).edge_label(f) }),
{
    proof { reveal_strlit("source"); reveal_strlit("target"); }
    if let Value::Object(m) = edge {
        if let (Some(a), Some(b)) = (read_id(m, "source"), read_id(m, "target")) {
            if let Some(l) = record_label(m) {
                if g.contains(a) && g.contains(b) && g.has_edge((a, b)) {
                    let ghost g0 = *g;
                    g.set_edge_label((a, b), l.duplicate());
                    proof {
                        crate::laws::lemma_same_sets_same_model(g.model(), g0.model());
                        assert forall|f: EdgeID| g0.model().edges.contains(G::edge_key(f)) implies #[trigger] g.edge_label(f) ==
                            (if (gml_edge_ends(edge@) matches Some(e) && G::edge_key(e) == G::edge_key(f)
                                && g0.model().vertices.contains(e.0) && g0.model().vertices.contains(e.1)) && glabel(edge@) is Some
                                { glabel(edge@) } else { g0.edge_label(f) }) by {
                            if G::edge_key(f) == G::edge_key((a, b)) {
                                g.lemma_edge_label_by_key(f, (a, b));
                            }
                        }
                    }
                }
            }
        }
    }
}

/// Attaches the labels of the node records, in order.
fn label_gml_nodes<G: GraphTrait>(g: &mut HashMapLabeledGraph<G>, v: Option<&Value>)
    requires
        old(g).model().wf(),
        forall|k: int| 0 <= k < gml_items_of(opt_view(v)).len() ==> (#[trigger] gml_node_id(gml_items_of(opt_view(v))[k]) matches Some(u)
            && old(g).model().vertices.contains(u)),
    ensures
        final(g).model() == old(g).model(),
        forall|u: VertexID| old(g).model().vertices.contains(u) ==> #[trigger] final(g).vertex_label(u) ==
            (if gml_vlabel(gml_items_of(opt_view(v)), u) is Some { gml_vlabel(gml_items_of(opt_view(v)), u) } else { old(g).vertex_label(u) }),
        forall|f: EdgeID| #[trigger] final(g).edge_label(f) == old(g).edge_label(f),
{
    let ghost items = gml_items_of(opt_view(v));
    match v {
        Some(Value::Object(_)) => {
            let node = v.unwrap();
            assert(items =~= seq![node@]);
            assert(items.drop_last() =~= Seq::<Tree>::empty());
            assert(items.last() == node@);
            assert forall|u: VertexID| gml_vlabel(items.drop_last(), u) is None by {}
            label_gml_node(g, node);
            assert forall|u: VertexID| old(g).model().vertices.contains(u) implies #[trigger] g.vertex_label(u) ==
                (if gml_vlabel(items, u) is Some { gml_vlabel(items, u) } else { old(g).vertex_label(u) }) by {
                assert(gml_vlabel(items, u) == (if gml_node_id(node@) == Some(u) && glabel(node@) is Some { glabel(node@) } else { gml_vlabel(items.drop_last(), u) }));
            }
        },
        Some(Value::Array(xs)) => {
            proof { lemma_list_view_len(xs@); }
            let mut i: usize = 0;
            assert(items.take(0) =~= Seq::<Tree>::empty());
            while i < xs.len()
                invariant
                    g.model() == old(g).model(),
                    old(g).model().wf(),
                    items == gml_items_of(opt_view(v)),
                    items == list_view(xs@),
                    items.len() == xs@.len(),
                    i <= xs@.len(),
                    forall|k: int| 0 <= k < items.len() ==> (#[trigger] gml_node_id(items[k]) matches Some(u) && old(g).model().vertices.contains(u)),
                    forall|u: VertexID| old(g).model().vertices.contains(u) ==> #[trigger] g.vertex_label(u) ==
                        (if gml_vlabel(items.take(i as int), u) is Some { gml_vlabel(items.take(i as int), u) } else { old(g).vertex_label(u) }),
                    forall|f: EdgeID| #[trigger] g.edge_label(f) == old(g).edge_label(f),
                decreases xs@.len() - i,
            {
                proof { lemma_list_view_index(xs@, i as int); }
                assert(items.take(i + 1).drop_last() =~= items.take(i as int));
                assert(items.take(i + 1).last() == xs@[i as int]@);
                label_gml_node(g, &xs[i]);
                i = i + 1;
            }
            assert(items.take(i as int) =~= items);
        },
        _ => {},
    }
}

/// Attaches the labels of the edge records, in order.
fn label_gml_edges<G: GraphTrait>(g: &mut HashMapLabeledGraph<G>, v: Option<&Value>)
    requires
        old(g).model().wf(),
        forall|k: int| 0 <= k < gml_items_of(opt_view(v)).len() ==> (#[trigger] gml_edge_ends(gml_items_of(opt_view(v))[k]) matches Some(e)
            && old(g).model().vertices.contains(e.0) && old(g).model().vertices.contains(e.1)),
    ensures
        final(g).model() == old(g).model(),
        forall|u: VertexID| old(g).model().vertices.contains(u) ==> #[trigger] final(g).vertex_label(u) == old(g).vertex_label(u),
        forall|f: EdgeID| old(g).model().edges.contains(G::edge_key(f)) ==> #[trigger] final(g).edge_label(f) ==
            (if gml_elabel::<G>(gml_items_of(opt_view(v)), f) is Some { gml_elabel::<G>(gml_items_of(opt_view(v)), f) } else { old(g).edge_label(f) }),
{
    let ghost items = gml_items_of(opt_view(v));
    match v {
        Some(Value::Object(_)) => {
            let edge = v.unwrap();
            assert(items =~= seq![edge@]);
            assert(items.drop_last() =~= Seq::<Tree>::empty());
            assert(items.last() == edge@);
            assert(gml_edge_ends(items[0]) is Some);
            assert forall|f: EdgeID| gml_elabel::<G>(items.drop_last(), f) is None by {}
            let ghost g0 = *g;
            label_gml_edge(g, edge);
            assert forall|f: EdgeID| g0.model().edges.contains(G::edge_key(f)) implies #[trigger] g.edge_label(f) ==
                (if gml_elabel::<G>(items, f) is Some { gml_elabel::<G>(items, f) } else { g0.edge_label(f) }) by {
                assert(gml_elabel::<G>(items, f) == (if gml_edge_ends(edge@) matches Some(e) && G::edge_key(e) == G::edge_key(f) && glabel(edge@) is Some { glabel(edge@) } else { gml_elabel::<G>(items.drop_last(), f) }));
            }
        },
        Some(Value::Array(xs)) => {
            proof { lemma_list_view_len(xs@); }
            let mut i: usize = 0;
            assert(items.take(0) =~= Seq::<Tree>::empty());
            while i < xs.len()
                invariant
                    g.model() == old(g).model(),
                    old(g).model().wf(),
                    items == gml_items_of(opt_view(v)),
                    items == list_view(xs@),
                    items.len() == xs@.len(),
                    i <= xs@.len(),
                    forall|k: int| 0 <= k < items.len() ==> (#[trigger] gml_edge_ends(items[k]) matches Some(e)
                        && old(g).model().vertices.contains(e.0) && old(g).model().vertices.contains(e.1)),
                    forall|u: VertexID| old(g).model().vertices.contains(u) ==> #[trigger] g.vertex_label(u) == old(g).vertex_label(u),
                    forall|f: EdgeID| old(g).model().edges.contains(G::edge_key(f)) ==> #[trigger] g.edge_label(f) ==
                        (if gml_elabel::<G>(items.take(i as int), f) is Some { gml_elabel::<G>(items.take(i as int), f) } else { old(g).edge_label(f) }),
                decreases xs@.len() - i,
            {
                proof { lemma_list_view_index(xs@, i as int); }
                assert(items.take(i + 1).drop_last() =~= items.take(i as int));
                assert(items.take(i + 1).last() == xs@[i as int]@);
                assert(gml_edge_ends(items[i as int]) is Some);
                label_gml_edge(g, &xs[i]);
                i = i + 1;
            }
            assert(items.take(i as int) =~= items);
        },
        _ => {},
    }
}

/// Builds a labeled graph from the record inside `graph [ ... ]`: a vertex
/// for each node record, an edge for each edge record; each vertex and edge
/// gets the label of the last record for it that carries one.
pub fn gml_graph<G: GraphTrait>(doc: &Vec<(String, Value)>) -> (r: Result<HashMapLabeledGraph<G>, String>)
    ensures
        r is Ok <==> gml_describes(record_view(doc@)),
        r matches Err(m) ==> m@ == gml_graph_error(record_view(doc@)),
        r matches Ok(g) ==> gml_graph_of::<G>(g.model(), record_view(doc@)),
        r matches Ok(g) ==> forall|u: VertexID| g.model().vertices.contains(u) ==> #[trigger] g.vertex_label(u)
            == gml_vlabel(gml_items_of(record_get(record_view(doc@), "node"@)), u),
        r matches Ok(g) ==> forall|f: EdgeID| g.model().edges.contains(G::edge_key(f)) ==> #[trigger] g.edge_label(f)
            == gml_elabel::<G>(gml_items_of(record_get(record_view(doc@), "edge"@)), f),
{
    proof { reveal_strlit("node"); reveal_strlit("edge"); }
    let mut plain = G::new();
    let nodes = record_lookup(doc, "node");
    let edges = record_lookup(doc, "edge");
    match add_gml_nodes(&mut plain, nodes) {
        Ok(()) => {},
        Err(e) => {
            return Err(e);
        },
    }
    proof {
        let ns = gml_items_of(opt_view(nodes));
        lemma_first_node_error(ns, ns.len() as int);
        assert(ns.skip(ns.len() as int) =~= Seq::<Tree>::empty());
    }
    match add_gml_edges(&mut plain, edges) {
        Ok(()) => {},
        Err(e) => {
            return Err(e);
        },
    }
    let ghost m = plain.model();
    let ghost ns = gml_items_of(opt_view(nodes));
    let ghost es = gml_items_of(opt_view(edges));
    let mut g = HashMapLabeledGraph::from_graph(plain);
    assert forall|k: int| 0 <= k < ns.len() implies (#[trigger] gml_node_id(ns[k]) matches Some(u) && m.vertices.contains(u)) by {
        assert(gml_node_id(ns[k]) is Some);
    }
    assert forall|k: int| 0 <= k < es.len() implies (#[trigger] gml_edge_ends(es[k]) matches Some(e)
        && m.vertices.contains(e.0) && m.vertices.contains(e.1)) by {
        assert(gml_edge_ends(es[k]) is Some);
        let e = gml_edge_ends(es[k])->0;
        assert(m.vertices.contains(e.0));
        assert(m.vertices.contains(e.1));
    }
    label_gml_nodes(&mut g, nodes);
    label_gml_edges(&mut g, edges);
    Ok(g)
}

/// Whether a text starts with the words `graph` and `[`.
pub open spec fn gml_header(s: Seq<char>) -> bool {
    word_after(s, 0) == Some("graph"@) && word_after(s, after_word(s, 0)) == Some("["@)
}

/// The record of a GML document: the fields of `graph [ ... ]`, or the
/// message for a malformed header or text after it.
pub open spec fn gml_doc(s: Seq<char>) -> Result<Seq<(Seq<char>, Tree)>, Seq<char>> {
    if gml_header(s) {
        match gml_rec(s, after_word(s, after_word(s, 0)), seq![]) {
            Ok((Tree::Record(m), _)) => Ok(m),
            Ok(_) => Err("Invalid GML format."@),
            Err(e) => Err(e),
        }
    } else {
        Err("Invalid GML format."@)
    }
}

/// Reads a labeled graph from a GML document.
pub fn labeled_from_gml<G: GraphTrait>(string: String) -> (r: Result<HashMapLabeledGraph<G>, String>)
    ensures
        !gml_header(string@) ==> (r matches Err(m) && m@ == "Invalid GML format."@),
        r is Ok <==> (gml_doc(string@) matches Ok(m) && gml_describes(m)),
        gml_doc(string@) matches Err(e) ==> (r matches Err(m) && m@ == e),
        (gml_doc(string@) matches Ok(d) && !gml_describes(d)) ==> (r matches Err(m) && m@ == gml_graph_error(gml_doc(string@)->Ok_0)),
        r matches Ok(g) ==> gml_graph_of::<G>(g.model(), gml_doc(string@)->Ok_0),
        r matches Ok(g) ==> forall|u: VertexID| g.model().vertices.contains(u) ==> #[trigger] g.vertex_label(u)
            == gml_vlabel(gml_items_of(record_get(gml_doc(string@)->Ok_0, "node"@)), u),
        r matches Ok(g) ==> forall|f: EdgeID| g.model().edges.contains(G::edge_key(f)) ==> #[trigger] g.edge_label(f)
            == gml_elabel::<G>(gml_items_of(record_get(gml_doc(string@)->Ok_0, "edge"@)), f),
{
    proof { reveal_strlit("graph"); reveal_strlit("["); }
    let mut p = Parse::new(string.as_str());
    let first = p.next_word();
    let ghost p1 = p.pos();
    let second = p.next_word();
    let header = match (first, second) {
        (Some(a), Some(b)) => is_word(a.as_str(), "graph") && is_word(b.as_str(), "["),
        _ => false,
    };
    if !header {
        return Err("Invalid GML format.".to_owned());
    }
    assert(p.pos() == after_word(string@, after_word(string@, 0)));
    match parse_map(&mut p) {
        Ok(Value::Object(map)) => {
            assert(gml_doc(string@) == Ok::<Seq<(Seq<char>, Tree)>, Seq<char>>(record_view(map@)));
            gml_graph(&map)
        },
        Ok(_) => Err("Invalid GML format.".to_owned()),
        Err(e) => Err(e),
    }
}

/// The graph that a GML record describes.
pub open spec fn gml_model<G: GraphTrait>(d: Seq<(Seq<char>, Tree)>) -> GraphView {
    choose|m: GraphView| gml_graph_of::<G>(m, d)
}

proof fn lemma_gml_model<G: GraphTrait>(m: GraphView, d: Seq<(Seq<char>, Tree)>)
    requires
        gml_graph_of::<G>(m, d),
    ensures
        gml_model::<G>(d) == m,
{
    let c = gml_model::<G>(d);
    assert(gml_graph_of::<G>(c, d));
    assert forall|u: usize| c.vertices.contains(u) <==> m.vertices.contains(u) by {}
    assert forall|p: (usize, usize)| c.edges.contains(p) <==> m.edges.contains(p) by {}
    crate::laws::lemma_same_sets_same_model(c, m);
}

/// Whether the labels that a GML record gives the vertices and edges of its
/// graph decode: vertex labels as `V`, edge labels as `E`.
pub open spec fn gml_labels_decode<G: GraphTrait, V: TypedValue, E: TypedValue>(d: Seq<(Seq<char>, Tree)>) -> bool {
    let m = gml_model::<G>(d);
    &&& forall|u: VertexID| #[trigger] m.vertices.contains(u)
        ==> (gml_vlabel(gml_items_of(record_get(d, "node"@)), u) matches Some(t) ==> V::decodable(t))
    &&& forall|p: EdgeID| #[trigger] m.edges.contains(p)
        ==> (gml_elabel::<G>(gml_items_of(record_get(d, "edge"@)), p) matches Some(t) ==> E::decodable(t))
}

/// Reads a labeled graph from a GML document, as `labeled_from_gml` does, and
/// also requires every label to decode: vertex labels as `V`, edge labels as
/// `E`. A label that does not decode fails the read with its decode message.
pub fn decoded_from_gml<G: GraphTrait, V: TypedValue, E: TypedValue>(string: String) -> (r: Result<HashMapLabeledGraph<G>, String>)
    ensures
        r is Ok <==> (gml_doc(string@) matches Ok(d) && gml_describes(d) && gml_labels_decode::<G, V, E>(d)),
        gml_doc(string@) matches Err(e) ==> (r matches Err(m) && m@ == e),
        (gml_doc(string@) matches Ok(d) && !gml_describes(d)) ==> (r matches Err(m) && m@ == gml_graph_error(gml_doc(string@)->Ok_0)),
        r matches Ok(g) ==> gml_graph_of::<G>(g.model(), gml_doc(string@)->Ok_0),
        r matches Ok(g) ==> forall|u: VertexID| g.model().vertices.contains(u) ==> #[trigger] g.vertex_label(u)
            == gml_vlabel(gml_items_of(record_get(gml_doc(string@)->Ok_0, "node"@)), u),
        r matches Ok(g) ==> forall|f: EdgeID| g.model().edges.contains(G::edge_key(f)) ==> #[trigger] g.edge_label(f)
            == gml_elabel::<G>(gml_items_of(record_get(gml_doc(string@)->Ok_0, "edge"@)), f),
{
    let g = labeled_from_gml::<G>(string)?;
    g.edges_are_keys();
    proof {
        let d = gml_doc(string@)->Ok_0;
        lemma_gml_model::<G>(g.model(), d);
    }
    check_labels::<G, V, E>(&g)?;
    Ok(g)
}

/// Reads a graph from a GML document; labels are read and dropped.
pub fn from_gml<G: GraphTrait>(string: String) -> (r: Result<G, String>)
    ensures
        !gml_header(string@) ==> (r matches Err(m) && m@ == "Invalid GML format."@),
        r is Ok <==> (gml_doc(string@) matches Ok(m) && gml_describes(m)),
        gml_doc(string@) matches Err(e) ==> (r matches Err(m) && m@ == e),
        (gml_doc(string@) matches Ok(d) && !gml_describes(d)) ==> (r matches Err(m) && m@ == gml_graph_error(gml_doc(string@)->Ok_0)),
        r matches Ok(g) ==> gml_graph_of::<G>(g.model(), gml_doc(string@)->Ok_0),
{
    match labeled_from_gml::<G>(string) {
        Ok(g) => Ok(g.to_graph()),
        Err(e) => Err(e),
    }
}

} // verus!
