//! Laws of the codecs, stated over the spec functions that the writers' and
//! readers' contracts use, and proved.
use vstd::prelude::*;
use crate::graph::{GraphTrait, GraphView, EdgeID, holds_items, lemma_sorted_ids_unique, item_touches, item_stores, GraphItem};
use crate::sorted::{ids_sorted, pairs_sorted, pair_lt};
use crate::text::{decimal, digit_char, is_digit, all_digits, decimal_value, digit_value, unsigned_value, id_value, line_len, split_lines, is_space};
use crate::dot::{dot_text, dot_vertex_lines, dot_edge_lines, dot_clean, drop_sp_semi, dot_statement, dot_items, dot_accepts, dot_document_items, dash_from};
use crate::tgf::{tgf_text, tgf_vertex_lines, tgf_edge_lines, tgf_items, tgf_statement, space_from};
use crate::text::{trim, lead_len, trail_len};
use crate::gml::gml_text;
use crate::graphml::{graphml_text, labeled_graphml_text};
use crate::value::{Tree, collapse, rec_add, keys_ascending, text_lt, lemma_text_lt_transitive, lemma_text_lt_total, lemma_text_lt_irreflexive};
use crate::graphml_read::{resort, rec_fold};
use crate::gml::norm;
use crate::graphml::{xml_escape, escape_char};
use crate::xml::{xml_unescape, lit_at};

verus! {

/// Repeated keys: binding a key a second time in a record (as `record_add`
/// does while GML reads a record) leaves a list of the two values, in the
/// order read. The first value is not itself a list; GML's reader never
/// produces one except by this collapse.
pub proof fn law_repeated_key_collapse(first: Tree, second: Tree)
    requires
        !(first is List),
    ensures
        collapse(Some(collapse(None, first)), second) == Tree::List(seq![first, second]),
{
}

/// Two strictly ascending sequences of pairs with the same elements are equal.
pub proof fn lemma_sorted_pairs_unique(a: Seq<(usize, usize)>, b: Seq<(usize, usize)>)
    requires
        pairs_sorted(a),
        pairs_sorted(b),
        forall|u: (usize, usize)| a.contains(u) <==> b.contains(u),
    ensures
        a == b,
    decreases a.len(),
{
    if a.len() == 0 {
        if b.len() > 0 {
            assert(b.contains(b[0]));
        }
    } else {
        assert(a.contains(a.last()));
        assert(b.len() > 0);
        assert(b.contains(b.last()));
        let ka = choose|k: int| 0 <= k < a.len() && a[k] == b.last();
        let kb = choose|k: int| 0 <= k < b.len() && b[k] == a.last();
        if ka < a.len() - 1 {
            assert(pair_lt(a[ka], a.last()));
        }
        if kb < b.len() - 1 {
            assert(pair_lt(b[kb], b.last()));
        }
        assert(a.last() == b.last());
        let a1 = a.drop_last();
        let b1 = b.drop_last();
        assert forall|u: (usize, usize)| a1.contains(u) <==> b1.contains(u) by {
            if a1.contains(u) {
                let k = choose|k: int| 0 <= k < a1.len() && a1[k] == u;
                assert(pair_lt(a[k], a.last()));
                assert(b.contains(u));
                let j = choose|j: int| 0 <= j < b.len() && b[j] == u;
                assert(j != b.len() - 1);
                assert(b1[j] == u);
            }
            if b1.contains(u) {
                let k = choose|k: int| 0 <= k < b1.len() && b1[k] == u;
                assert(pair_lt(b[k], b.last()));
                assert(a.contains(u));
                let j = choose|j: int| 0 <= j < a.len() && a[j] == u;
                assert(j != a.len() - 1);
                assert(a1[j] == u);
            }
        }
        lemma_sorted_pairs_unique(a1, b1);
        assert(a == a1.push(a.last()));
        assert(b == b1.push(b.last()));
    }
}

/// Two well-formed graphs with the same vertices and the same edges have the same model.
pub proof fn lemma_same_sets_same_model(a: GraphView, b: GraphView)
    requires
        a.wf(),
        b.wf(),
        forall|u: usize| a.vertices.contains(u) <==> b.vertices.contains(u),
        forall|p: (usize, usize)| a.edges.contains(p) <==> b.edges.contains(p),
    ensures
        a == b,
{
    lemma_sorted_ids_unique(a.vertices, b.vertices);
    lemma_sorted_pairs_unique(a.edges, b.edges);
}

/// Determinism: every writer's text depends on the vertex and edge sets alone,
/// whatever order they were added in; the writers list vertices by ascending id
/// and edges by ascending (source, target), as the models of both graphs do.
pub proof fn law_writers_deterministic(a: GraphView, b: GraphView, directed: bool,
    vl: spec_fn(usize) -> Option<Tree>, el: spec_fn(EdgeID) -> Option<Tree>)
    requires
        a.wf(),
        b.wf(),
        forall|u: usize| a.vertices.contains(u) <==> b.vertices.contains(u),
        forall|p: (usize, usize)| a.edges.contains(p) <==> b.edges.contains(p),
    ensures
        dot_text(a) == dot_text(b),
        tgf_text(a) == tgf_text(b),
        gml_text(a, vl, el) == gml_text(b, vl, el),
        graphml_text(a, directed) == graphml_text(b, directed),
        labeled_graphml_text(a, vl, el, directed) == labeled_graphml_text(b, vl, el, directed),
        ids_sorted(a.vertices),
        pairs_sorted(a.edges),
{
    lemma_same_sets_same_model(a, b);
}

pub proof fn lemma_digit_char(d: int)
    requires
        0 <= d < 10,
    ensures
        is_digit(digit_char(d)),
        digit_value(digit_char(d)) == d,
{
}

/// The decimal rendering of a number is a nonempty run of digits that denotes it.
pub proof fn lemma_decimal(n: nat)
    ensures
        decimal(n).len() > 0,
        all_digits(decimal(n)),
        decimal_value(decimal(n)) == n,
    decreases n,
{
    if n < 10 {
        lemma_digit_char(n as int);
        let s = decimal(n);
        assert(s.drop_last() =~= Seq::<char>::empty());
        assert(decimal_value(Seq::<char>::empty()) == 0);
        assert(decimal_value(s) == decimal_value(s.drop_last()) * 10 + digit_value(s.last()));
    } else {
        lemma_decimal(n / 10);
        lemma_digit_char((n % 10) as int);
        let s = decimal(n);
        assert(s.drop_last() == decimal(n / 10));
        assert(s.last() == digit_char((n % 10) as int));
        assert((n / 10) * 10 + n % 10 == n) by (nonlinear_arith);
        assert(decimal_value(s) == decimal_value(s.drop_last()) * 10 + digit_value(s.last()));
        assert forall|i: int| 0 <= i < s.len() implies is_digit(#[trigger] s[i]) by {
            if i < s.len() - 1 {
                assert(s[i] == decimal(n / 10)[i]);
            }
        }
    }
}

/// A vertex id written in decimal reads back as itself.
pub proof fn lemma_id_value_decimal(v: usize)
    ensures
        id_value(decimal(v as nat)) == Some(v),
{
    lemma_decimal(v as nat);
    let s = decimal(v as nat);
    assert(is_digit(s[0]));
}

/// A text without line breaks, a line break, then the rest: one line, then the lines of the rest.
pub proof fn lemma_split_line(a: Seq<char>, b: Seq<char>)
    requires
        forall|i: int| 0 <= i < a.len() ==> a[i] != '\n',
    ensures
        split_lines(a + "\n"@ + b) == seq![a] + split_lines(b),
{
    reveal_strlit("\n");
    let s = a + "\n"@ + b;
    crate::text::lemma_line_len(s, a.len() as int);
    assert(s.take(a.len() as int) =~= a);
    assert(s.skip(a.len() as int + 1) =~= b);
}

/// A nonempty text without line breaks is one line.
pub proof fn lemma_single_line(a: Seq<char>)
    requires
        a.len() > 0,
        forall|i: int| 0 <= i < a.len() ==> a[i] != '\n',
    ensures
        split_lines(a) == seq![a],
{
    crate::text::lemma_line_len(a, a.len() as int);
}

pub proof fn lemma_drop_sp_semi_concat(x: Seq<char>, y: Seq<char>)
    ensures
        drop_sp_semi(x + y) == drop_sp_semi(x) + drop_sp_semi(y),
    decreases y.len(),
{
    if y.len() == 0 {
        assert(x + y =~= x);
        assert(drop_sp_semi(x) + drop_sp_semi(y) =~= drop_sp_semi(x));
    } else {
        lemma_drop_sp_semi_concat(x, y.drop_last());
        assert((x + y).drop_last() =~= x + y.drop_last());
        assert((x + y).last() == y.last());
        assert(drop_sp_semi(x) + drop_sp_semi(y) =~= if y.last() == ' ' || y.last() == ';' {
            drop_sp_semi(x) + drop_sp_semi(y.drop_last())
        } else {
            (drop_sp_semi(x) + drop_sp_semi(y.drop_last())).push(y.last())
        });
    }
}

pub proof fn lemma_drop_sp_semi_digits(s: Seq<char>)
    requires
        all_digits(s),
    ensures
        drop_sp_semi(s) == s,
    decreases s.len(),
{
    if s.len() > 0 {
        assert(is_digit(s.last()));
        assert(all_digits(s.drop_last())) by {
            assert forall|i: int| 0 <= i < s.drop_last().len() implies is_digit(#[trigger] s.drop_last()[i]) by {
                assert(s.drop_last()[i] == s[i]);
            }
        }
        lemma_drop_sp_semi_digits(s.drop_last());
        assert(s.drop_last().push(s.last()) =~= s);
    }
}

pub proof fn lemma_no_break_in_digits(s: Seq<char>)
    requires
        all_digits(s),
    ensures
        forall|i: int| 0 <= i < s.len() ==> s[i] != '\n' && s[i] != '-' && s[i] != '+' && !is_space(s[i]),
{
    assert forall|i: int| 0 <= i < s.len() implies s[i] != '\n' && s[i] != '-' && s[i] != '+' && !is_space(s[i]) by {
        assert(is_digit(s[i]));
    }
}

/// The body of the DOT line of a vertex.
pub open spec fn dot_vertex_line(v: usize) -> Seq<char> {
    "    "@ + decimal(v as nat) + ";"@
}

/// The body of the DOT line of an edge.
pub open spec fn dot_edge_line(e: (usize, usize)) -> Seq<char> {
    "    "@ + decimal(e.0 as nat) + " -- "@ + decimal(e.1 as nat) + ";"@
}

/// Trimming drops leading whitespace before a text that starts and ends with
/// non-whitespace characters.
proof fn lemma_trim_strip(pre: Seq<char>, y: Seq<char>)
    requires
        forall|i: int| 0 <= i < pre.len() ==> is_space(pre[i]),
        y.len() > 0,
        !is_space(y[0]),
        !is_space(y.last()),
    ensures
        trim(pre + y) == y,
{
    let s = pre + y;
    assert(forall|k: int| 0 <= k < pre.len() ==> is_space(s[k]));
    assert(s[pre.len() as int] == y[0]);
    crate::text::lemma_lead_len(s, pre.len() as int);
    assert(s.skip(pre.len() as int) =~= y);
    assert(trail_len(y) == 0);
    assert(y.take(y.len() as int) =~= y);
}

proof fn lemma_literals()
    ensures
        ";\n"@ == ";"@ + "\n"@,
        drop_sp_semi(";"@) == Seq::<char>::empty(),
        drop_sp_semi(" -- "@) == "--"@,
        dot_clean("graph {"@) == "graph{"@,
        dot_clean("}"@) == "}"@,
        dot_clean(Seq::<char>::empty()) == Seq::<char>::empty(),
{
    reveal_strlit(";\n");
    reveal_strlit(";");
    reveal_strlit("\n");
    reveal_strlit("    ");
    reveal_strlit(" -- ");
    reveal_strlit("--");
    reveal_strlit("graph {");
    reveal_strlit("graph{");
    reveal_strlit("}");
    assert(";\n"@ =~= ";"@ + "\n"@);
    reveal_with_fuel(drop_sp_semi, 8);
    assert(drop_sp_semi(";"@) =~= Seq::<char>::empty());
    assert(drop_sp_semi(" -- "@) =~= "--"@);
    lemma_trim_plain("graph {"@);
    lemma_trim_plain("}"@);
    assert(drop_sp_semi("graph {"@) =~= "graph{"@);
    assert(drop_sp_semi("}"@) =~= "}"@);
    assert(lead_len(Seq::<char>::empty()) == 0);
    assert(Seq::<char>::empty().skip(0) =~= Seq::<char>::empty());
    assert(trim(Seq::<char>::empty()) =~= Seq::<char>::empty());
}

pub proof fn lemma_dot_vertex_line(v: usize)
    ensures
        dot_clean(dot_vertex_line(v)) == decimal(v as nat),
        forall|i: int| 0 <= i < dot_vertex_line(v).len() ==> dot_vertex_line(v)[i] != '\n',
        dot_statement(decimal(v as nat)) == Some(Some(GraphItem::Vertex(v))),
{
    lemma_literals();
    lemma_decimal(v as nat);
    lemma_id_value_decimal(v);
    lemma_drop_sp_semi_digits(decimal(v as nat));
    lemma_drop_sp_semi_concat(decimal(v as nat), ";"@);
    assert(decimal(v as nat) + Seq::<char>::empty() =~= decimal(v as nat));
    reveal_strlit("    ");
    reveal_strlit(";");
    lemma_no_break_in_digits(decimal(v as nat));
    lemma_trim_strip("    "@, decimal(v as nat) + ";"@);
    assert(dot_vertex_line(v) =~= "    "@ + (decimal(v as nat) + ";"@));
    let l = dot_vertex_line(v);
    assert forall|i: int| 0 <= i < l.len() implies l[i] != '\n' by {
        if i >= 4 && i < 4 + decimal(v as nat).len() {
            assert(l[i] == decimal(v as nat)[i - 4]);
        }
    }
}

proof fn lemma_dash_from(c: Seq<char>, k: int, t: int)
    requires
        0 <= k <= t,
        t + 1 < c.len(),
        forall|j: int| k <= j < t ==> c[j] != '-',
        c[t] == '-' && c[t + 1] == '-',
    ensures
        dash_from(c, k) == Some(t),
    decreases t - k,
{
    if k < t {
        lemma_dash_from(c, k + 1, t);
    }
}

pub proof fn lemma_dot_edge_line(e: (usize, usize))
    ensures
        dot_clean(dot_edge_line(e)) == decimal(e.0 as nat) + "--"@ + decimal(e.1 as nat),
        forall|i: int| 0 <= i < dot_edge_line(e).len() ==> dot_edge_line(e)[i] != '\n',
        dot_statement(decimal(e.0 as nat) + "--"@ + decimal(e.1 as nat)) == Some(Some(GraphItem::Edge(e.0, e.1))),
{
    let da = decimal(e.0 as nat);
    let db = decimal(e.1 as nat);
    lemma_literals();
    lemma_decimal(e.0 as nat);
    lemma_decimal(e.1 as nat);
    lemma_id_value_decimal(e.0);
    lemma_id_value_decimal(e.1);
    lemma_drop_sp_semi_digits(da);
    lemma_drop_sp_semi_digits(db);
    lemma_drop_sp_semi_concat(da + " -- "@ + db, ";"@);
    lemma_drop_sp_semi_concat(da + " -- "@, db);
    lemma_drop_sp_semi_concat(da, " -- "@);
    assert(da + "--"@ + db + Seq::<char>::empty() =~= da + "--"@ + db);
    reveal_strlit("    ");
    reveal_strlit(";");
    reveal_strlit(" -- ");
    reveal_strlit("--");
    lemma_no_break_in_digits(da);
    lemma_no_break_in_digits(db);
    let body = da + " -- "@ + db + ";"@;
    assert(body[0] == da[0]);
    lemma_trim_strip("    "@, body);
    assert(dot_edge_line(e) =~= "    "@ + body);
    let l = dot_edge_line(e);
    assert forall|i: int| 0 <= i < l.len() implies l[i] != '\n' by {
        if i >= 4 && i < 4 + da.len() {
            assert(l[i] == da[i - 4]);
        } else if i >= 8 + da.len() && i < 8 + da.len() + db.len() {
            assert(l[i] == db[i - 8 - da.len()]);
        }
    }
    let c = da + "--"@ + db;
    assert(c[da.len() as int] == '-');
    assert(!all_digits(c));
    assert(c[0] == da[0]);
    assert(unsigned_value(c) is None);
    assert forall|j: int| 0 <= j < da.len() implies c[j] != '-' by {
        assert(c[j] == da[j]);
    }
    lemma_dash_from(c, 0, da.len() as int);
    assert(c.take(da.len() as int) =~= da);
    assert(c.skip(da.len() as int + 2) =~= db);
}

pub open spec fn dot_vertex_bodies(vs: Seq<usize>) -> Seq<Seq<char>> {
    Seq::new(vs.len(), |i: int| dot_vertex_line(vs[i]))
}

pub open spec fn dot_edge_bodies(es: Seq<(usize, usize)>) -> Seq<Seq<char>> {
    Seq::new(es.len(), |i: int| dot_edge_line(es[i]))
}

pub open spec fn vertex_items(vs: Seq<usize>) -> Seq<GraphItem> {
    Seq::new(vs.len(), |i: int| GraphItem::Vertex(vs[i]))
}

pub open spec fn edge_items(es: Seq<(usize, usize)>) -> Seq<GraphItem> {
    Seq::new(es.len(), |i: int| GraphItem::Edge(es[i].0, es[i].1))
}

proof fn lemma_split_vertex_lines(vs: Seq<usize>, rest: Seq<char>)
    ensures
        split_lines(dot_vertex_lines(vs) + rest) == dot_vertex_bodies(vs) + split_lines(rest),
    decreases vs.len(),
{
    if vs.len() == 0 {
        assert(dot_vertex_lines(vs) + rest =~= rest);
        assert(dot_vertex_bodies(vs) + split_lines(rest) =~= split_lines(rest));
    } else {
        let v = vs.last();
        lemma_literals();
        lemma_dot_vertex_line(v);
        let tail = dot_vertex_line(v) + "\n"@ + rest;
        assert(dot_vertex_lines(vs) + rest =~= dot_vertex_lines(vs.drop_last()) + tail);
        lemma_split_vertex_lines(vs.drop_last(), tail);
        lemma_split_line(dot_vertex_line(v), rest);
        assert(dot_vertex_bodies(vs) =~= dot_vertex_bodies(vs.drop_last()) + seq![dot_vertex_line(v)]);
        assert(dot_vertex_bodies(vs) + split_lines(rest) =~= dot_vertex_bodies(vs.drop_last()) + (seq![dot_vertex_line(v)] + split_lines(rest)));
    }
}

proof fn lemma_split_edge_lines(es: Seq<(usize, usize)>, rest: Seq<char>)
    ensures
        split_lines(dot_edge_lines(es) + rest) == dot_edge_bodies(es) + split_lines(rest),
    decreases es.len(),
{
    if es.len() == 0 {
        assert(dot_edge_lines(es) + rest =~= rest);
        assert(dot_edge_bodies(es) + split_lines(rest) =~= split_lines(rest));
    } else {
        let e = es.last();
        lemma_literals();
        lemma_dot_edge_line(e);
        let tail = dot_edge_line(e) + "\n"@ + rest;
        assert(dot_edge_lines(es) + rest =~= dot_edge_lines(es.drop_last()) + tail);
        lemma_split_edge_lines(es.drop_last(), tail);
        lemma_split_line(dot_edge_line(e), rest);
        assert(dot_edge_bodies(es) =~= dot_edge_bodies(es.drop_last()) + seq![dot_edge_line(e)]);
        assert(dot_edge_bodies(es) + split_lines(rest) =~= dot_edge_bodies(es.drop_last()) + (seq![dot_edge_line(e)] + split_lines(rest)));
    }
}

proof fn lemma_dot_items_concat(a: Seq<Seq<char>>, b: Seq<Seq<char>>)
    requires
        dot_items(a) is Some,
        dot_items(b) is Some,
    ensures
        dot_items(a + b) == Some(dot_items(a)->0 + dot_items(b)->0),
    decreases b.len(),
{
    if b.len() == 0 {
        assert(a + b =~= a);
        assert(dot_items(a)->0 + dot_items(b)->0 =~= dot_items(a)->0);
    } else {
        lemma_dot_items_concat(a, b.drop_last());
        assert((a + b).drop_last() =~= a + b.drop_last());
        assert((a + b).last() == b.last());
        match dot_statement(dot_clean(b.last())) {
            Some(Some(it)) => {
                assert(dot_items(a)->0 + dot_items(b)->0 =~= (dot_items(a)->0 + dot_items(b.drop_last())->0).push(it));
            },
            _ => {},
        }
    }
}

proof fn lemma_vertex_items(vs: Seq<usize>)
    ensures
        dot_items(dot_vertex_bodies(vs)) == Some(vertex_items(vs)),
    decreases vs.len(),
{
    if vs.len() > 0 {
        lemma_vertex_items(vs.drop_last());
        lemma_dot_vertex_line(vs.last());
        assert(dot_vertex_bodies(vs).drop_last() =~= dot_vertex_bodies(vs.drop_last()));
        assert(vertex_items(vs) =~= vertex_items(vs.drop_last()).push(GraphItem::Vertex(vs.last())));
    } else {
        assert(vertex_items(vs) =~= seq![]);
    }
}

proof fn lemma_edge_items(es: Seq<(usize, usize)>)
    ensures
        dot_items(dot_edge_bodies(es)) == Some(edge_items(es)),
    decreases es.len(),
{
    if es.len() > 0 {
        lemma_edge_items(es.drop_last());
        lemma_dot_edge_line(es.last());
        assert(dot_edge_bodies(es).drop_last() =~= dot_edge_bodies(es.drop_last()));
        assert(edge_items(es) =~= edge_items(es.drop_last()).push(GraphItem::Edge(es.last().0, es.last().1)));
    } else {
        assert(edge_items(es) =~= seq![]);
    }
}

/// The lines of a DOT document as the writer gives it.
proof fn lemma_dot_lines(m: GraphView)
    ensures
        split_lines(dot_text(m)) == seq!["graph {"@] + dot_vertex_bodies(m.vertices) + seq![Seq::<char>::empty()]
            + dot_edge_bodies(m.edges) + seq!["}"@],
{
    reveal_strlit("graph {\n");
    reveal_strlit("graph {");
    reveal_strlit("\n");
    reveal_strlit("}");
    let vl = dot_vertex_lines(m.vertices);
    let el = dot_edge_lines(m.edges);
    let r2 = el + "}"@;
    let r1 = Seq::<char>::empty() + "\n"@ + r2;
    assert(dot_text(m) =~= "graph {"@ + "\n"@ + (vl + r1));
    lemma_split_line("graph {"@, vl + r1);
    lemma_split_vertex_lines(m.vertices, r1);
    lemma_split_line(Seq::<char>::empty(), r2);
    lemma_split_edge_lines(m.edges, "}"@);
    lemma_single_line("}"@);
    assert(split_lines(dot_text(m)) =~= seq!["graph {"@] + dot_vertex_bodies(m.vertices) + seq![Seq::<char>::empty()]
        + dot_edge_bodies(m.edges) + seq!["}"@]);
}

/// Round trip of DOT: the text that `to_dot` writes for any well-formed graph
/// is accepted by `from_dot`, and any graph that `from_dot` builds from it has
/// the same vertices and edges. (`h` stands for that graph; the edges of a graph of
/// type `G` are stored under their own key.)
pub proof fn law_dot_round_trip<G: GraphTrait>(m: GraphView, h: GraphView)
    requires
        m.wf(),
    ensures
        dot_accepts(dot_text(m)),
        (holds_items::<G>(h, dot_document_items(dot_text(m))) && (forall|q: EdgeID| #[trigger] m.edges.contains(q) ==> G::edge_key(q) == q)) ==> h == m,
{
    lemma_dot_lines(m);
    lemma_literals();
    let lines = split_lines(dot_text(m));
    let vb = dot_vertex_bodies(m.vertices);
    let eb = dot_edge_bodies(m.edges);
    let blank = seq![Seq::<char>::empty()];
    let close = seq!["}"@];
    assert(lines.skip(1) =~= vb + blank + eb + close);
    lemma_vertex_items(m.vertices);
    lemma_edge_items(m.edges);
    reveal_strlit("}");
    assert(dot_items(blank) == Some(Seq::<GraphItem>::empty())) by {
        assert(blank.drop_last() =~= Seq::<Seq<char>>::empty());
        assert(dot_items(Seq::<Seq<char>>::empty()) == Some(Seq::<GraphItem>::empty()));
        assert(blank.last() == Seq::<char>::empty());
        assert(dot_clean(Seq::<char>::empty()) == Seq::<char>::empty());
        assert(id_value(Seq::<char>::empty()) is None);
        assert(dash_from(Seq::<char>::empty(), 0) is None);
        assert(dot_statement(Seq::<char>::empty()) == Some(None::<GraphItem>));
    }
    assert(dot_items(close) == Some(Seq::<GraphItem>::empty())) by {
        assert(close.drop_last() =~= Seq::<Seq<char>>::empty());
        assert(dot_items(Seq::<Seq<char>>::empty()) == Some(Seq::<GraphItem>::empty()));
        assert(close.last() == "}"@);
        assert(!is_digit('}'));
        assert(!all_digits("}"@));
        assert(id_value("}"@) is None);
        assert(dash_from("}"@, 0) is None);
        assert(dot_statement("}"@) == Some(None::<GraphItem>));
    }
    lemma_dot_items_concat(vb, blank);
    lemma_dot_items_concat(vb + blank, eb);
    lemma_dot_items_concat(vb + blank + eb, close);
    let items = vertex_items(m.vertices) + edge_items(m.edges);
    assert(dot_items(lines.skip(1)) == Some(items)) by {
        assert(vertex_items(m.vertices) + Seq::<GraphItem>::empty() + edge_items(m.edges) + Seq::<GraphItem>::empty() =~= items);
    }
    assert(dot_document_items(dot_text(m)) == items);
    if holds_items::<G>(h, dot_document_items(dot_text(m))) && (forall|q: EdgeID| #[trigger] m.edges.contains(q) ==> G::edge_key(q) == q) {
        let nv = m.vertices.len() as int;
        assert forall|u: usize| h.vertices.contains(u) <==> m.vertices.contains(u) by {
            if h.vertices.contains(u) {
                let k = choose|k: int| 0 <= k < items.len() && item_touches(#[trigger] items[k], u);
                if k < nv {
                    assert(items[k] == GraphItem::Vertex(m.vertices[k]));
                } else {
                    let e = m.edges[k - nv];
                    assert(items[k] == GraphItem::Edge(e.0, e.1));
                    assert(m.edges.contains(e));
                }
            }
            if m.vertices.contains(u) {
                let k = choose|k: int| 0 <= k < m.vertices.len() && m.vertices[k] == u;
                assert(item_touches(items[k], u));
            }
        }
        assert forall|p: (usize, usize)| h.edges.contains(p) <==> m.edges.contains(p) by {
            if h.edges.contains(p) {
                let k = choose|k: int| 0 <= k < items.len() && item_stores::<G>(#[trigger] items[k], p);
                if k < nv {
                    assert(items[k] == GraphItem::Vertex(m.vertices[k]));
                } else {
                    let e = m.edges[k - nv];
                    assert(items[k] == GraphItem::Edge(e.0, e.1));
                    assert(m.edges.contains(e));
                    assert(p == G::edge_key(e));
                }
            }
            if m.edges.contains(p) {
                let j = choose|j: int| 0 <= j < m.edges.len() && m.edges[j] == p;
                assert(items[nv + j] == GraphItem::Edge(p.0, p.1));
                assert(item_stores::<G>(items[nv + j], p));
            }
        }
        lemma_same_sets_same_model(h, m);
    }
}

/// The body of the TGF line of an edge.
pub open spec fn tgf_edge_line(e: (usize, usize)) -> Seq<char> {
    decimal(e.0 as nat) + " "@ + decimal(e.1 as nat)
}

/// The edge lines of TGF, each led by a line break, built from the front.
pub open spec fn tgf_edge_lines_front(es: Seq<(usize, usize)>) -> Seq<char>
    decreases es.len(),
{
    if es.len() == 0 {
        seq![]
    } else {
        "\n"@ + tgf_edge_line(es[0]) + tgf_edge_lines_front(es.drop_first())
    }
}

proof fn lemma_tgf_front_back(es: Seq<(usize, usize)>)
    ensures
        tgf_edge_lines(es) == tgf_edge_lines_front(es),
    decreases es.len(),
{
    if es.len() > 0 {
        lemma_tgf_front_back(es.drop_last());
        if es.len() == 1 {
            assert(es.drop_last() =~= Seq::<(usize, usize)>::empty());
            assert(es.drop_first() =~= Seq::<(usize, usize)>::empty());
            assert(tgf_edge_lines(es) =~= tgf_edge_lines_front(es));
        } else {
            lemma_tgf_front_back(es.drop_first());
            lemma_tgf_front_back(es.drop_first().drop_last());
            assert(es.drop_last().drop_first() =~= es.drop_first().drop_last());
            assert(es.drop_last()[0] == es[0]);
            assert(es.drop_first().last() == es.last());
            assert(tgf_edge_lines(es) =~= tgf_edge_lines_front(es));
        }
    }
}

pub open spec fn tgf_edge_bodies(es: Seq<(usize, usize)>) -> Seq<Seq<char>> {
    Seq::new(es.len(), |i: int| tgf_edge_line(es[i]))
}

pub open spec fn decimal_bodies(vs: Seq<usize>) -> Seq<Seq<char>> {
    Seq::new(vs.len(), |i: int| decimal(vs[i] as nat))
}

proof fn lemma_tgf_edge_line(e: (usize, usize))
    ensures
        tgf_edge_line(e).len() > 0,
        forall|i: int| 0 <= i < tgf_edge_line(e).len() ==> tgf_edge_line(e)[i] != '\n',
        trim(tgf_edge_line(e)) == tgf_edge_line(e),
        tgf_statement(tgf_edge_line(e)) == Some(Some(GraphItem::Edge(e.0, e.1))),
{
    let da = decimal(e.0 as nat);
    let db = decimal(e.1 as nat);
    lemma_decimal(e.0 as nat);
    lemma_decimal(e.1 as nat);
    lemma_id_value_decimal(e.0);
    lemma_id_value_decimal(e.1);
    lemma_no_break_in_digits(da);
    lemma_no_break_in_digits(db);
    reveal_strlit(" ");
    let c = tgf_edge_line(e);
    assert forall|i: int| 0 <= i < c.len() implies c[i] != '\n' by {
        if i < da.len() {
            assert(c[i] == da[i]);
        } else if i > da.len() {
            assert(c[i] == db[i - da.len() - 1]);
        }
    }
    assert(c[0] == da[0]);
    assert(c.last() == db.last());
    lemma_trim_plain(c);
    assert(c[da.len() as int] == ' ');
    assert(!all_digits(c));
    assert(unsigned_value(c) is None);
    assert forall|j: int| 0 <= j < da.len() implies c[j] != ' ' by {
        assert(c[j] == da[j]);
    }
    lemma_space_from(c, 0, da.len() as int);
    assert(c.take(da.len() as int) =~= da);
    assert(c.skip(da.len() as int + 1) =~= db);
}

proof fn lemma_space_from(c: Seq<char>, k: int, t: int)
    requires
        0 <= k <= t < c.len(),
        forall|j: int| k <= j < t ==> c[j] != ' ',
        c[t] == ' ',
    ensures
        space_from(c, k) == Some(t),
    decreases t - k,
{
    if k < t {
        lemma_space_from(c, k + 1, t);
    }
}

/// A text that starts and ends with a non-whitespace character is its own trim.
proof fn lemma_trim_plain(c: Seq<char>)
    requires
        c.len() > 0,
        !is_space(c[0]),
        !is_space(c.last()),
    ensures
        trim(c) == c,
{
    assert(lead_len(c) == 0);
    assert(c.skip(0) =~= c);
    assert(trail_len(c) == 0);
    assert(c.take(c.len() as int) =~= c);
}

proof fn lemma_tgf_vertex_line(v: usize)
    ensures
        forall|i: int| 0 <= i < decimal(v as nat).len() ==> decimal(v as nat)[i] != '\n',
        trim(decimal(v as nat)) == decimal(v as nat),
        tgf_statement(decimal(v as nat)) == Some(Some(GraphItem::Vertex(v))),
{
    lemma_decimal(v as nat);
    lemma_id_value_decimal(v);
    lemma_no_break_in_digits(decimal(v as nat));
    lemma_trim_plain(decimal(v as nat));
}

proof fn lemma_split_tgf_vertex_lines(vs: Seq<usize>, rest: Seq<char>)
    ensures
        split_lines(tgf_vertex_lines(vs) + rest) == decimal_bodies(vs) + split_lines(rest),
    decreases vs.len(),
{
    if vs.len() == 0 {
        assert(tgf_vertex_lines(vs) + rest =~= rest);
        assert(decimal_bodies(vs) + split_lines(rest) =~= split_lines(rest));
    } else {
        let v = vs.last();
        lemma_tgf_vertex_line(v);
        let tail = decimal(v as nat) + "\n"@ + rest;
        assert(tgf_vertex_lines(vs) + rest =~= tgf_vertex_lines(vs.drop_last()) + tail);
        lemma_split_tgf_vertex_lines(vs.drop_last(), tail);
        lemma_split_line(decimal(v as nat), rest);
        assert(decimal_bodies(vs) =~= decimal_bodies(vs.drop_last()) + seq![decimal(v as nat)]);
        assert(decimal_bodies(vs) + split_lines(rest) =~= decimal_bodies(vs.drop_last()) + (seq![decimal(v as nat)] + split_lines(rest)));
    }
}

proof fn lemma_split_tgf_edge_lines(first: Seq<char>, es: Seq<(usize, usize)>)
    requires
        first.len() > 0,
        forall|i: int| 0 <= i < first.len() ==> first[i] != '\n',
    ensures
        split_lines(first + tgf_edge_lines_front(es)) == seq![first] + tgf_edge_bodies(es),
    decreases es.len(),
{
    if es.len() == 0 {
        assert(first + tgf_edge_lines_front(es) =~= first);
        lemma_single_line(first);
        assert(seq![first] + tgf_edge_bodies(es) =~= seq![first]);
    } else {
        let b = tgf_edge_line(es[0]);
        lemma_tgf_edge_line(es[0]);
        assert(first + tgf_edge_lines_front(es) =~= first + "\n"@ + (b + tgf_edge_lines_front(es.drop_first())));
        lemma_split_line(first, b + tgf_edge_lines_front(es.drop_first()));
        lemma_split_tgf_edge_lines(b, es.drop_first());
        assert(tgf_edge_bodies(es) =~= seq![b] + tgf_edge_bodies(es.drop_first()));
        assert(seq![first] + tgf_edge_bodies(es) =~= seq![first] + (seq![b] + tgf_edge_bodies(es.drop_first())));
    }
}

proof fn lemma_tgf_items_concat(a: Seq<Seq<char>>, b: Seq<Seq<char>>)
    requires
        tgf_items(a) is Some,
        tgf_items(b) is Some,
    ensures
        tgf_items(a + b) == Some(tgf_items(a)->0 + tgf_items(b)->0),
    decreases b.len(),
{
    if b.len() == 0 {
        assert(a + b =~= a);
        assert(tgf_items(a)->0 + tgf_items(b)->0 =~= tgf_items(a)->0);
    } else {
        lemma_tgf_items_concat(a, b.drop_last());
        assert((a + b).drop_last() =~= a + b.drop_last());
        assert((a + b).last() == b.last());
        match tgf_statement(trim(b.last())) {
            Some(Some(it)) => {
                assert(tgf_items(a)->0 + tgf_items(b)->0 =~= (tgf_items(a)->0 + tgf_items(b.drop_last())->0).push(it));
            },
            _ => {},
        }
    }
}

proof fn lemma_tgf_vertex_items(vs: Seq<usize>)
    ensures
        tgf_items(decimal_bodies(vs)) == Some(vertex_items(vs)),
    decreases vs.len(),
{
    if vs.len() > 0 {
        lemma_tgf_vertex_items(vs.drop_last());
        lemma_tgf_vertex_line(vs.last());
        assert(decimal_bodies(vs).drop_last() =~= decimal_bodies(vs.drop_last()));
        assert(vertex_items(vs) =~= vertex_items(vs.drop_last()).push(GraphItem::Vertex(vs.last())));
    } else {
        assert(vertex_items(vs) =~= seq![]);
    }
}

proof fn lemma_tgf_edge_items(es: Seq<(usize, usize)>)
    ensures
        tgf_items(tgf_edge_bodies(es)) == Some(edge_items(es)),
    decreases es.len(),
{
    if es.len() > 0 {
        lemma_tgf_edge_items(es.drop_last());
        lemma_tgf_edge_line(es.last());
        assert(tgf_edge_bodies(es).drop_last() =~= tgf_edge_bodies(es.drop_last()));
        assert(edge_items(es) =~= edge_items(es.drop_last()).push(GraphItem::Edge(es.last().0, es.last().1)));
    } else {
        assert(edge_items(es) =~= seq![]);
    }
}

/// Round trip of TGF: the text that `to_tgf` writes for any well-formed graph
/// is accepted by `from_tgf`, and any graph that `from_tgf` builds from it has
/// the same vertices and edges. (`h` stands for that graph; the edges of a graph of
/// type `G` are stored under their own key.)
pub proof fn law_tgf_round_trip<G: GraphTrait>(m: GraphView, h: GraphView)
    requires
        m.wf(),
    ensures
        tgf_items(split_lines(tgf_text(m))) is Some,
        (holds_items::<G>(h, tgf_items(split_lines(tgf_text(m)))->0) && (forall|q: EdgeID| #[trigger] m.edges.contains(q) ==> G::edge_key(q) == q)) ==> h == m,
{
    reveal_strlit("#");
    lemma_tgf_front_back(m.edges);
    let rest = "#"@ + tgf_edge_lines_front(m.edges);
    assert(tgf_text(m) =~= tgf_vertex_lines(m.vertices) + rest);
    lemma_split_tgf_vertex_lines(m.vertices, rest);
    lemma_split_tgf_edge_lines("#"@, m.edges);
    let vb = decimal_bodies(m.vertices);
    let eb = tgf_edge_bodies(m.edges);
    let sep = seq!["#"@];
    let lines = split_lines(tgf_text(m));
    assert(lines =~= vb + sep + eb);
    lemma_tgf_vertex_items(m.vertices);
    lemma_tgf_edge_items(m.edges);
    assert(tgf_items(sep) == Some(Seq::<GraphItem>::empty())) by {
        assert(sep.drop_last() =~= Seq::<Seq<char>>::empty());
        assert(tgf_items(Seq::<Seq<char>>::empty()) == Some(Seq::<GraphItem>::empty()));
        assert(sep.last() == "#"@);
        lemma_trim_plain("#"@);
        assert(!is_digit('#'));
        assert(!all_digits("#"@));
        assert(id_value("#"@) is None);
        assert(space_from("#"@, 0) is None) by {
            assert(space_from("#"@, 1) is None);
        }
        assert(tgf_statement("#"@) == Some(None::<GraphItem>));
    }
    lemma_tgf_items_concat(vb, sep);
    lemma_tgf_items_concat(vb + sep, eb);
    let items = vertex_items(m.vertices) + edge_items(m.edges);
    assert(tgf_items(lines) == Some(items)) by {
        assert(vertex_items(m.vertices) + Seq::<GraphItem>::empty() + edge_items(m.edges) =~= items);
    }
    if holds_items::<G>(h, tgf_items(split_lines(tgf_text(m)))->0) && (forall|q: EdgeID| #[trigger] m.edges.contains(q) ==> G::edge_key(q) == q) {
        let nv = m.vertices.len() as int;
        assert forall|u: usize| h.vertices.contains(u) <==> m.vertices.contains(u) by {
            if h.vertices.contains(u) {
                let k = choose|k: int| 0 <= k < items.len() && item_touches(#[trigger] items[k], u);
                if k < nv {
                    assert(items[k] == GraphItem::Vertex(m.vertices[k]));
                } else {
                    let e = m.edges[k - nv];
                    assert(items[k] == GraphItem::Edge(e.0, e.1));
                    assert(m.edges.contains(e));
                }
            }
            if m.vertices.contains(u) {
                let k = choose|k: int| 0 <= k < m.vertices.len() && m.vertices[k] == u;
                assert(item_touches(items[k], u));
            }
        }
        assert forall|p: (usize, usize)| h.edges.contains(p) <==> m.edges.contains(p) by {
            if h.edges.contains(p) {
                let k = choose|k: int| 0 <= k < items.len() && item_stores::<G>(#[trigger] items[k], p);
                if k < nv {
                    assert(items[k] == GraphItem::Vertex(m.vertices[k]));
                } else {
                    let e = m.edges[k - nv];
                    assert(items[k] == GraphItem::Edge(e.0, e.1));
                    assert(m.edges.contains(e));
                    assert(p == G::edge_key(e));
                }
            }
            if m.edges.contains(p) {
                let j = choose|j: int| 0 <= j < m.edges.len() && m.edges[j] == p;
                assert(items[nv + j] == GraphItem::Edge(p.0, p.1));
                assert(item_stores::<G>(items[nv + j], p));
            }
        }
        lemma_same_sets_same_model(h, m);
    }
}

proof fn lemma_escape_front(c: char, s: Seq<char>)
    ensures
        xml_escape(seq![c] + s) == escape_char(c) + xml_escape(s),
    decreases s.len(),
{
    if s.len() == 0 {
        assert(seq![c] + s =~= seq![c]);
        assert((seq![c] + s).drop_last() =~= Seq::<char>::empty());
        assert(xml_escape(Seq::<char>::empty()) == Seq::<char>::empty());
        assert(xml_escape(seq![c] + s) == xml_escape((seq![c] + s).drop_last()) + escape_char((seq![c] + s).last()));
        assert(escape_char(c) + xml_escape(s) =~= escape_char(c));
        assert(Seq::<char>::empty() + escape_char(c) =~= escape_char(c));
    } else {
        lemma_escape_front(c, s.drop_last());
        assert((seq![c] + s).drop_last() =~= seq![c] + s.drop_last());
        assert((seq![c] + s).last() == s.last());
        assert(xml_escape(seq![c] + s) == xml_escape((seq![c] + s).drop_last()) + escape_char((seq![c] + s).last()));
        assert(xml_escape(s) == xml_escape(s.drop_last()) + escape_char(s.last()));
        assert(escape_char(c) + xml_escape(s) =~= (escape_char(c) + xml_escape(s.drop_last())) + escape_char(s.last()));
    }
}

proof fn lemma_unescape_char(c: char, r: Seq<char>)
    ensures
        xml_unescape(escape_char(c) + r) == seq![c] + xml_unescape(r),
{
    reveal_strlit("&lt;");
    reveal_strlit("&gt;");
    reveal_strlit("&amp;");
    reveal_strlit("&quot;");
    reveal_strlit("&apos;");
    let t = escape_char(c) + r;
    let n = escape_char(c).len();
    assert(t.skip(n as int) =~= r);
    assert(t.subrange(0, n as int) =~= escape_char(c));
    if c != '<' && c != '>' && c != '&' && c != '"' && c != '\'' {
        assert(t[0] == c);
        assert(!lit_at(t, 0, "&lt;"@) && !lit_at(t, 0, "&gt;"@) && !lit_at(t, 0, "&amp;"@) && !lit_at(t, 0, "&quot;"@) && !lit_at(t, 0, "&apos;"@)) by {
            if t.len() >= 4 { assert(t.subrange(0, 4)[0] == c); }
            if t.len() >= 5 { assert(t.subrange(0, 5)[0] == c); }
            if t.len() >= 6 { assert(t.subrange(0, 6)[0] == c); }
        }
    } else if c == '<' {
        assert(lit_at(t, 0, "&lt;"@));
    } else if c == '>' {
        assert(!lit_at(t, 0, "&lt;"@)) by { assert(t.subrange(0, 4)[1] == 'g'); }
        assert(lit_at(t, 0, "&gt;"@));
    } else if c == '&' {
        assert(!lit_at(t, 0, "&lt;"@)) by { assert(t.subrange(0, 4)[1] == 'a'); }
        assert(!lit_at(t, 0, "&gt;"@)) by { assert(t.subrange(0, 4)[1] == 'a'); }
        assert(lit_at(t, 0, "&amp;"@));
    } else if c == '"' {
        assert(!lit_at(t, 0, "&lt;"@)) by { assert(t.subrange(0, 4)[1] == 'q'); }
        assert(!lit_at(t, 0, "&gt;"@)) by { assert(t.subrange(0, 4)[1] == 'q'); }
        assert(!lit_at(t, 0, "&amp;"@)) by { assert(t.subrange(0, 5)[1] == 'q'); }
        assert(lit_at(t, 0, "&quot;"@));
    } else {
        assert(!lit_at(t, 0, "&lt;"@)) by { assert(t.subrange(0, 4)[1] == 'a'); }
        assert(!lit_at(t, 0, "&gt;"@)) by { assert(t.subrange(0, 4)[1] == 'a'); }
        assert(!lit_at(t, 0, "&amp;"@)) by { assert(t.subrange(0, 5)[2] == 'p'); }
        assert(!lit_at(t, 0, "&quot;"@)) by { assert(t.subrange(0, 6)[1] == 'a'); }
        assert(lit_at(t, 0, "&apos;"@));
    }
}

/// Escaping round trip: the GraphML reader's unescaping gives back any text
/// that the writer escaped.
pub proof fn law_unescape_escape(s: Seq<char>)
    ensures
        xml_unescape(xml_escape(s)) == s,
    decreases s.len(),
{
    if s.len() == 0 {
        assert(xml_escape(s) == Seq::<char>::empty());
    } else {
        let c = s[0];
        let rest = s.drop_first();
        assert(s =~= seq![c] + rest);
        lemma_escape_front(c, rest);
        lemma_unescape_char(c, xml_escape(rest));
        law_unescape_escape(rest);
    }
}

proof fn lemma_rec_add_keys(m: Seq<(Seq<char>, Tree)>, k: Seq<char>, v: Tree)
    ensures
        forall|j: int| 0 <= j < rec_add(m, k, v).len() ==> (#[trigger] rec_add(m, k, v)[j]).0 == k
            || exists|i: int| 0 <= i < m.len() && m[i].0 == rec_add(m, k, v)[j].0,
    decreases m.len(),
{
    let r = rec_add(m, k, v);
    if m.len() == 0 {
    } else if m[0].0 == k {
        assert forall|j: int| 0 <= j < r.len() implies (#[trigger] r[j]).0 == k || exists|i: int| 0 <= i < m.len() && m[i].0 == r[j].0 by {
            if j > 0 { assert(m[j].0 == r[j].0); }
        }
    } else if text_lt(k, m[0].0) {
        assert forall|j: int| 0 <= j < r.len() implies (#[trigger] r[j]).0 == k || exists|i: int| 0 <= i < m.len() && m[i].0 == r[j].0 by {
            if j > 0 { assert(m[j - 1].0 == r[j].0); }
        }
    } else {
        let t = m.drop_first();
        lemma_rec_add_keys(t, k, v);
        assert forall|j: int| 0 <= j < r.len() implies (#[trigger] r[j]).0 == k || exists|i: int| 0 <= i < m.len() && m[i].0 == r[j].0 by {
            if j == 0 {
                assert(m[0].0 == r[0].0);
            } else {
                assert(r[j] == rec_add(t, k, v)[j - 1]);
                if rec_add(t, k, v)[j - 1].0 != k {
                    let i = choose|i: int| 0 <= i < t.len() && t[i].0 == rec_add(t, k, v)[j - 1].0;
                    assert(m[i + 1].0 == r[j].0);
                }
            }
        }
    }
}

proof fn lemma_rec_add_sorted(m: Seq<(Seq<char>, Tree)>, k: Seq<char>, v: Tree)
    requires
        keys_ascending(m),
    ensures
        keys_ascending(rec_add(m, k, v)),
    decreases m.len(),
{
    let r = rec_add(m, k, v);
    if m.len() == 0 {
    } else if m[0].0 == k {
        assert forall|a: int, b: int| 0 <= a < b < r.len() implies text_lt(r[a].0, r[b].0) by {
            assert(text_lt(m[a].0, m[b].0));
        }
    } else if text_lt(k, m[0].0) {
        assert forall|a: int, b: int| 0 <= a < b < r.len() implies text_lt(r[a].0, r[b].0) by {
            if a == 0 {
                if b > 1 {
                    assert(text_lt(m[0].0, m[b - 1].0));
                    lemma_text_lt_transitive(k, m[0].0, m[b - 1].0);
                }
            } else {
                assert(text_lt(m[a - 1].0, m[b - 1].0));
            }
        }
    } else {
        let t = m.drop_first();
        assert(keys_ascending(t)) by {
            assert forall|a: int, b: int| 0 <= a < b < t.len() implies text_lt(t[a].0, t[b].0) by {
                assert(text_lt(m[a + 1].0, m[b + 1].0));
            }
        }
        lemma_rec_add_sorted(t, k, v);
        lemma_rec_add_keys(t, k, v);
        lemma_text_lt_total(k, m[0].0);
        let rt = rec_add(t, k, v);
        assert forall|a: int, b: int| 0 <= a < b < r.len() implies text_lt(r[a].0, r[b].0) by {
            if a == 0 {
                assert(r[b] == rt[b - 1]);
                if rt[b - 1].0 != k {
                    let i = choose|i: int| 0 <= i < t.len() && t[i].0 == rt[b - 1].0;
                    assert(text_lt(m[0].0, m[i + 1].0));
                }
            } else {
                assert(r[a] == rt[a - 1]);
                assert(r[b] == rt[b - 1]);
            }
        }
    }
}

proof fn lemma_rec_fold_sorted(acc: Seq<(Seq<char>, Tree)>, m: Seq<(Seq<char>, Tree)>)
    requires
        keys_ascending(acc),
    ensures
        keys_ascending(rec_fold(acc, m)),
    decreases m.len(),
{
    if m.len() > 0 {
        lemma_rec_add_sorted(acc, m[0].0, m[0].1);
        lemma_rec_fold_sorted(rec_add(acc, m[0].0, m[0].1), m.drop_first());
    }
}

/// Key order of written labels: every record of a label, as the GML writer
/// writes it, lists its fields in strictly ascending key order.
pub proof fn law_written_records_ascend(t: Tree)
    ensures
        norm(t) matches Tree::Record(m) ==> keys_ascending(m),
{
    if let Tree::Record(m) = t {
        lemma_rec_fold_sorted(seq![], crate::gml::norm_entries(m));
    }
}

/// Round trip of DOT and TGF for directed graphs, which store every edge as
/// itself: `from_dot` and `from_tgf` accept what `to_dot` and `to_tgf` write,
/// and any graph they build from it has the same vertices and edges.
pub proof fn law_directed_round_trips(m: GraphView, h: GraphView, k: GraphView)
    requires
        m.wf(),
    ensures
        dot_accepts(dot_text(m)),
        holds_items::<crate::graph::SparseDiGraph>(h, dot_document_items(dot_text(m))) ==> h == m,
        tgf_items(split_lines(tgf_text(m))) is Some,
        holds_items::<crate::graph::SparseDiGraph>(k, tgf_items(split_lines(tgf_text(m)))->0) ==> k == m,
{
    law_dot_round_trip::<crate::graph::SparseDiGraph>(m, h);
    law_tgf_round_trip::<crate::graph::SparseDiGraph>(m, k);
}

/// Round trip of DOT and TGF for any graph: `from_dot` and `from_tgf` accept
/// what `to_dot` and `to_tgf` write for `g`, and every graph they can build
/// from it has exactly the vertices and edges of `g`. (This is a function
/// rather than a proof function because the graph's own invariant, that each
/// stored edge is its own key, is read from the graph value.)
pub fn round_trips_hold<G: GraphTrait>(g: &G)
    requires
        g.model().wf(),
    ensures
        dot_accepts(dot_text(g.model())),
        forall|h: GraphView| #[trigger] holds_items::<G>(h, dot_document_items(dot_text(g.model()))) ==> h == g.model(),
        tgf_items(split_lines(tgf_text(g.model()))) is Some,
        forall|h: GraphView| #[trigger] holds_items::<G>(h, tgf_items(split_lines(tgf_text(g.model())))->0) ==> h == g.model(),
{
    g.edges_are_keys();
    proof {
        law_dot_round_trip::<G>(g.model(), g.model());
        law_tgf_round_trip::<G>(g.model(), g.model());
        assert forall|h: GraphView| #[trigger] holds_items::<G>(h, dot_document_items(dot_text(g.model()))) implies h == g.model() by {
            law_dot_round_trip::<G>(g.model(), h);
        }
        assert forall|h: GraphView| #[trigger] holds_items::<G>(h, tgf_items(split_lines(tgf_text(g.model())))->0) implies h == g.model() by {
            law_tgf_round_trip::<G>(g.model(), h);
        }
    }
}

} // verus!
