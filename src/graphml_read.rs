//! Reading GraphML: a pass over the XML events that builds the attribute
//! schema from `key` declarations and fills a copy of it for each node and edge.
use vstd::prelude::*;
use crate::graph::{GraphTrait, VertexID, EdgeID};
use crate::labeled::{HashMapLabeledGraph, check_labels, labels_decode};
use crate::bridge::TypedValue;
use crate::parse::is_word;
use crate::text::{parse_id, parse_signed, is_float_text, push_char, signed_value, float_syntax};
use crate::value::{Value, Tree, keys_ascending, record_view, record_add, compare_text, lemma_record_view_as_new, lemma_list_view_as_new, list_view, value_view, rec_add};
use crate::xml::{XmlEvent, XmlEv, attribute, attr_get, attrs_view, ev_view, evs_view, xml_events, xml_document};
use crate::graph::{GraphItem, GraphView, build_graph, holds_items};
use crate::text::id_value;
use crate::flat::entries_view;

verus! {

/// The parts of a path from here on, `cur` being the part read so far.
pub open spec fn split_dots_from(p: Seq<char>, cur: Seq<char>) -> Seq<Seq<char>>
    decreases p.len(),
{
    if p.len() == 0 {
        seq![cur]
    } else if p[0] == '.' {
        seq![cur] + split_dots_from(p.drop_first(), seq![])
    } else {
        split_dots_from(p.drop_first(), cur.push(p[0]))
    }
}

/// The parts of a dotted path, split at each dot.
pub open spec fn split_dots(p: Seq<char>) -> Seq<Seq<char>> {
    split_dots_from(p, seq![])
}

pub open spec fn texts_view(v: Seq<String>) -> Seq<Seq<char>> {
    v.map_values(|t: String| t@)
}

/// The components of a dotted path.
pub fn split_path(path: &str) -> (r: Vec<String>)
    ensures
        texts_view(r@) == split_dots(path@),
{
    let n = path.unicode_len();
    let mut parts: Vec<String> = Vec::new();
    let mut cur = String::new();
    let mut i: usize = 0;
    assert(path@.skip(0) =~= path@);
    assert(texts_view(parts@) =~= seq![]);
    while i < n
        invariant
            n == path@.len(),
            i <= n,
            texts_view(parts@) + split_dots_from(path@.skip(i as int), cur@) == split_dots(path@),
        decreases n - i,
    {
        let c = path.get_char(i);
        let ghost rest = path@.skip(i as int);
        assert(rest.drop_first() =~= path@.skip(i + 1));
        let ghost before = parts@;
        if c == '.' {
            assert(texts_view(before.push(cur)) =~= texts_view(before) + seq![cur@]);
            parts.push(cur);
            cur = String::new();
        } else {
            push_char(&mut cur, c);
        }
        i = i + 1;
    }
    assert(path@.skip(n as int) =~= Seq::<char>::empty());
    let ghost before = parts@;
    assert(texts_view(before.push(cur)) =~= texts_view(before) + seq![cur@]);
    parts.push(cur);
    parts
}

/// The value bound first to `k` in a record.
pub open spec fn rec_find(m: Seq<(Seq<char>, Tree)>, k: Seq<char>) -> Option<Tree>
    decreases m.len(),
{
    if m.len() == 0 { None } else if m[0].0 == k { Some(m[0].1) } else { rec_find(m.drop_first(), k) }
}

/// The record without its first binding of `k`.
pub open spec fn rec_remove(m: Seq<(Seq<char>, Tree)>, k: Seq<char>) -> Seq<(Seq<char>, Tree)>
    decreases m.len(),
{
    if m.len() == 0 { m } else if m[0].0 == k { m.drop_first() } else { seq![m[0]] + rec_remove(m.drop_first(), k) }
}

/// The fields re-bound one by one, in order, after those of `acc`.
pub open spec fn rec_fold(acc: Seq<(Seq<char>, Tree)>, m: Seq<(Seq<char>, Tree)>) -> Seq<(Seq<char>, Tree)>
    decreases m.len(),
{
    if m.len() == 0 { acc } else { rec_fold(rec_add(acc, m[0].0, m[0].1), m.drop_first()) }
}

/// The fields re-bound one by one so that the keys ascend.
pub open spec fn resort(m: Seq<(Seq<char>, Tree)>) -> Seq<(Seq<char>, Tree)> {
    rec_fold(seq![], m)
}

/// Removes the first binding of `key` from a record and returns its value.
pub fn record_take(m: &mut Vec<(String, Value)>, key: &str) -> (r: Option<Value>)
    requires
        keys_ascending(record_view(old(m)@)),
    ensures
        keys_ascending(record_view(final(m)@)),
        opt_tree(r) == rec_find(record_view(old(m)@), key@),
        record_view(final(m)@) == rec_remove(record_view(old(m)@), key@),
{
    let ghost om = old(m)@;
    proof { lemma_record_view_as_new(om); }
    let ghost ov = record_view(om);
    let mut i: usize = 0;
    assert(ov.skip(0) =~= ov);
    assert(ov.take(0) + rec_remove(ov.skip(0), key@) =~= rec_remove(ov, key@));
    while i < m.len()
        invariant
            i <= m@.len(),
            m@ == old(m)@,
            om == old(m)@,
            ov == record_view(om),
            ov.len() == om.len(),
            ov == Seq::new(om.len(), |k: int| (om[k].0@, value_view(om[k].1))),
            keys_ascending(record_view(m@)),
            rec_find(ov, key@) == rec_find(ov.skip(i as int), key@),
            rec_remove(ov, key@) == ov.take(i as int) + rec_remove(ov.skip(i as int), key@),
        decreases m@.len() - i,
    {
        let ghost rest = ov.skip(i as int);
        assert(rest[0] == ov[i as int]);
        assert(rest.drop_first() =~= ov.skip(i + 1));
        if is_word(m[i].0.as_str(), key) {
            let (_, v) = m.remove(i);
            proof {
                lemma_record_view_as_new(m@);
                assert(record_view(m@) =~= ov.take(i as int) + rest.drop_first());
                assert forall|a: int, b: int| 0 <= a < b < record_view(m@).len() implies crate::value::text_lt(#[trigger] record_view(m@)[a].0, #[trigger] record_view(m@)[b].0) by {
                    let a2 = if a < i { a } else { a + 1 };
                    let b2 = if b < i { b } else { b + 1 };
                    assert(ov[a2].0 == record_view(m@)[a].0);
                    assert(ov[b2].0 == record_view(m@)[b].0);
                    assert(crate::value::text_lt(ov[a2].0, ov[b2].0));
                }
            }
            return Some(v);
        }
        assert(ov.take(i + 1) =~= ov.take(i as int).push(ov[i as int]));
        assert(ov.take(i as int) + rec_remove(rest, key@) =~= ov.take(i + 1) + rec_remove(ov.skip(i + 1), key@));
        i = i + 1;
    }
    assert(ov.skip(i as int) =~= Seq::<(Seq<char>, Tree)>::empty());
    assert(ov.take(i as int) =~= ov);
    assert(ov + Seq::<(Seq<char>, Tree)>::empty() =~= ov);
    None
}

pub open spec fn opt_tree(o: Option<Value>) -> Option<Tree> {
    match o {
        Some(v) => Some(v@),
        None => None,
    }
}

/// The same fields, re-bound one by one so that the keys ascend.
pub fn resorted(m: Vec<(String, Value)>) -> (r: Vec<(String, Value)>)
    ensures
        keys_ascending(record_view(r@)),
        record_view(r@) == resort(record_view(m@)),
{
    let ghost orig = record_view(m@);
    let mut m = m;
    let mut out: Vec<(String, Value)> = Vec::new();
    assert(record_view(out@) =~= seq![]);
    while m.len() > 0
        invariant
            keys_ascending(record_view(out@)),
            resort(orig) == rec_fold(record_view(out@), record_view(m@)),
        decreases m@.len(),
    {
        let ghost mv = record_view(m@);
        proof {
            lemma_record_view_as_new(m@);
        }
        let (k, v) = m.remove(0);
        proof {
            lemma_record_view_as_new(m@);
            assert(record_view(m@) =~= mv.drop_first());
        }
        record_add(&mut out, k, v);
    }
    assert(record_view(m@) =~= seq![]);
    out
}

/// Where the schema places `data` at the path `comps[i..]` below `v`: a
/// numeric part selects the list slot at that index (a slot past the end is
/// added at the end; a value that is no list becomes a list of that one
/// slot); another part descends into (or creates) the record field.
pub open spec fn place(v: Tree, comps: Seq<Seq<char>>, i: int, data: Tree) -> Tree
    decreases comps.len() - i,
{
    if i < 0 || i >= comps.len() {
        match data {
            Tree::Record(m) => Tree::Record(resort(m)),
            _ => data,
        }
    } else if id_value(comps[i]) is Some {
        let idx = id_value(comps[i])->0 as int;
        match v {
            Tree::List(xs) => if idx < xs.len() {
                Tree::List(xs.update(idx, place(xs[idx], comps, i + 1, data)))
            } else {
                Tree::List(xs.push(place(Tree::Record(seq![]), comps, i + 1, data)))
            },
            _ => Tree::List(seq![place(Tree::Record(seq![]), comps, i + 1, data)]),
        }
    } else {
        match v {
            Tree::Record(m) => {
                let m1 = resort(m);
                let child = match rec_find(m1, comps[i]) { Some(c) => c, None => Tree::Record(seq![]) };
                Tree::Record(rec_add(rec_remove(m1, comps[i]), comps[i], place(child, comps, i + 1, data)))
            },
            _ => v,
        }
    }
}

/// Places `data` at the path `comps[i..]` below `v`, as `place` says.
pub fn build_map(v: Value, comps: &Vec<String>, i: usize, data: Value) -> (r: Value)
    requires
        i <= comps@.len(),
    ensures
        r@ is Record ==> keys_ascending(r@->Record_0),
        r@ == place(v@, texts_view(comps@), i as int, data@),
    decreases comps@.len() - i,
{
    let ghost cv = texts_view(comps@);
    if i >= comps.len() {
        return match data {
            Value::Object(m) => Value::Object(resorted(m)),
            other => other,
        };
    }
    assert(cv[i as int] == comps@[i as int]@);
    if let Some(idx) = parse_id(comps[i].as_str()) {
        match v {
            Value::Array(mut arr) => {
                let ghost a0 = arr@;
                proof { lemma_list_view_as_new(a0); }
                if idx < arr.len() {
                    let item = arr.remove(idx);
                    let built = build_map(item, comps, i + 1, data);
                    arr.insert(idx, built);
                    proof { lemma_list_view_as_new(arr@); }
                    assert(list_view(arr@) =~= list_view(a0).update(idx as int, built@));
                } else {
                    let e0: Vec<(String, Value)> = Vec::new();
                    assert(record_view(e0@) =~= seq![]);
                    let fresh = build_map(Value::Object(e0), comps, i + 1, data);
                    arr.push(fresh);
                    proof { lemma_list_view_as_new(arr@); }
                    assert(list_view(arr@) =~= list_view(a0).push(fresh@));
                }
                Value::Array(arr)
            },
            _ => {
                let e0: Vec<(String, Value)> = Vec::new();
                assert(record_view(e0@) =~= seq![]);
                let fresh = build_map(Value::Object(e0), comps, i + 1, data);
                let a = vec![fresh];
                proof { lemma_list_view_as_new(a@); }
                assert(list_view(a@) =~= seq![fresh@]);
                Value::Array(a)
            },
        }
    } else {
        match v {
            Value::Object(m) => {
                let mut m = resorted(m);
                let child = match record_take(&mut m, comps[i].as_str()) {
                    Some(c) => c,
                    None => {
                        let e: Vec<(String, Value)> = Vec::new();
                        assert(record_view(e@) =~= seq![]);
                        Value::Object(e)
                    },
                };
                let built = build_map(child, comps, i + 1, data);
                record_add(&mut m, comps[i].clone(), built);
                Value::Object(m)
            },
            other => other,
        }
    }
}

/// The value that a text stands for under a declared type; `None` when the
/// type is unknown or the text does not read as one.
pub open spec fn typed_spec(kind: Seq<char>, text: Seq<char>) -> Option<Tree> {
    if kind == "boolean"@ {
        if text == "true"@ { Some(Tree::Bool(true)) } else if text == "false"@ { Some(Tree::Bool(false)) } else { None }
    } else if kind == "string"@ {
        Some(Tree::Text(text))
    } else if kind == "long"@ {
        match signed_value(text) {
            Some(i) => Some(Tree::Int(i as int)),
            None => None,
        }
    } else if kind == "double"@ {
        if float_syntax(text) { Some(Tree::Float(text)) } else { None }
    } else {
        None
    }
}

/// The message for a text that does not read under a declared type.
pub open spec fn typed_error(kind: Seq<char>) -> Seq<char> {
    if kind == "boolean"@ {
        "provided string was not `true` or `false`"@
    } else if kind == "long"@ {
        "invalid digit found in string"@
    } else if kind == "double"@ {
        "invalid float literal"@
    } else {
        "Unknown type"@
    }
}

/// The value that the text of a `data` element stands for, under the type
/// declared for its key.
pub fn typed_value(kind: &str, text: String) -> (r: Result<Value, String>)
    ensures
        r is Ok <==> typed_spec(kind@, text@) is Some,
        r matches Ok(v) ==> typed_spec(kind@, text@) == Some(v@),
        r matches Err(m) ==> m@ == typed_error(kind@),
{
    proof { reveal_strlit("boolean"); reveal_strlit("string"); reveal_strlit("long"); reveal_strlit("double"); }
    if is_word(kind, "boolean") {
        if is_word(text.as_str(), "true") {
            Ok(Value::Bool(true))
        } else if is_word(text.as_str(), "false") {
            Ok(Value::Bool(false))
        } else {
            Err(text_of("provided string was not `true` or `false`"))
        }
    } else if is_word(kind, "string") {
        Ok(Value::String(text))
    } else if is_word(kind, "long") {
        match parse_signed(text.as_str()) {
            Some(i) => Ok(Value::Int(i)),
            None => Err(text_of("invalid digit found in string")),
        }
    } else if is_word(kind, "double") {
        if is_float_text(text.as_str()) {
            Ok(Value::Float(text))
        } else {
            Err(text_of("invalid float literal"))
        }
    } else {
        Err(text_of("Unknown type"))
    }
}

/// The result of filling the text of a `data` element in at the path
/// `comps[i..]` below `v`: a numeric part selects a list item, another part
/// a record field, and the type placeholder found there becomes the typed value.
pub open spec fn fill(v: Tree, comps: Seq<Seq<char>>, i: int, text: Seq<char>) -> Result<Tree, Seq<char>>
    decreases comps.len() - i,
{
    if i < 0 || i >= comps.len() {
        match v {
            Tree::Text(kind) => match typed_spec(kind, text) {
                Some(t) => Ok(t),
                None => Err(typed_error(kind)),
            },
            Tree::Record(m) => Ok(Tree::Record(resort(m))),
            _ => Ok(v),
        }
    } else {
        match id_value(comps[i]) {
            Some(idx) => match v {
                Tree::List(xs) => if idx >= xs.len() {
                    Err("Could not find index"@)
                } else {
                    match fill(xs[idx as int], comps, i + 1, text) {
                        Ok(f) => Ok(Tree::List(xs.update(idx as int, f))),
                        Err(e) => Err(e),
                    }
                },
                _ => Err("Cannot parse map object with an index"@),
            },
            None => match v {
                Tree::Record(m) => {
                    let m1 = resort(m);
                    match rec_find(m1, comps[i]) {
                        None => Err("Could not find key"@),
                        Some(c) => match fill(c, comps, i + 1, text) {
                            Ok(f) => Ok(Tree::Record(rec_add(rec_remove(m1, comps[i]), comps[i], f))),
                            Err(e) => Err(e),
                        },
                    }
                },
                _ => Err("Cannot parse primitive types as a map"@),
            },
        }
    }
}

/// Puts the text of a `data` element at the path `comps[i..]` below `v`, as `fill` says.
pub fn fill_value(v: Value, comps: &Vec<String>, i: usize, text: String) -> (r: Result<Value, String>)
    requires
        i <= comps@.len(),
    ensures
        r matches Ok(x) ==> (x@ is Record ==> keys_ascending(x@->Record_0)),
        r is Ok <==> fill(v@, texts_view(comps@), i as int, text@) is Ok,
        r matches Ok(x) ==> fill(v@, texts_view(comps@), i as int, text@) == Ok::<Tree, Seq<char>>(x@),
        r matches Err(m) ==> fill(v@, texts_view(comps@), i as int, text@) == Err::<Tree, Seq<char>>(m@),
    decreases comps@.len() - i,
{
    let ghost cv = texts_view(comps@);
    if i >= comps.len() {
        return match v {
            Value::String(kind) => typed_value(kind.as_str(), text),
            Value::Object(m) => Ok(Value::Object(resorted(m))),
            Value::Array(a) => Ok(Value::Array(a)),
            other => {
                assert(!(other@ is Record));
                Ok(other)
            },
        };
    }
    assert(cv[i as int] == comps@[i as int]@);
    match parse_id(comps[i].as_str()) {
        Some(idx) => {
            match v {
                Value::Array(mut arr) => {
                    let ghost a0 = arr@;
                    proof { lemma_list_view_as_new(a0); }
                    if idx >= arr.len() {
                        return Err(text_of("Could not find index"));
                    }
                    let item = arr.remove(idx);
                    let filled = match fill_value(item, comps, i + 1, text) {
                        Ok(f) => f,
                        Err(e) => {
                            return Err(e);
                        },
                    };
                    arr.insert(idx, filled);
                    proof { lemma_list_view_as_new(arr@); }
                    assert(list_view(arr@) =~= list_view(a0).update(idx as int, filled@));
                    Ok(Value::Array(arr))
                },
                _ => Err(text_of("Cannot parse map object with an index")),
            }
        },
        None => {
            match v {
                Value::Object(m) => {
                    let mut m = resorted(m);
                    let child = match record_take(&mut m, comps[i].as_str()) {
                        Some(c) => c,
                        None => {
                            return Err(text_of("Could not find key"));
                        },
                    };
                    let filled = match fill_value(child, comps, i + 1, text) {
                        Ok(f) => f,
                        Err(e) => {
                            return Err(e);
                        },
                    };
                    record_add(&mut m, comps[i].clone(), filled);
                    Ok(Value::Object(m))
                },
                _ => Err(text_of("Cannot parse primitive types as a map")),
            }
        },
    }
}

/// The schema after declaring `path` with the type `kind`.
pub open spec fn declared(schema: Seq<(Seq<char>, Tree)>, path: Seq<char>, kind: Seq<char>) -> Seq<(Seq<char>, Tree)> {
    match place(Tree::Record(schema), split_dots(path), 0, Tree::Text(kind)) {
        Tree::Record(m) => m,
        _ => seq![],
    }
}

/// Declares a key: its path gets the declared type as a placeholder.
pub fn declare_key(schema: Vec<(String, Value)>, path: &str, kind: String) -> (r: Vec<(String, Value)>)
    ensures
        keys_ascending(record_view(r@)),
        record_view(r@) == declared(record_view(schema@), path@, kind@),
{
    let comps = split_path(path);
    match build_map(Value::Object(schema), &comps, 0, Value::String(kind)) {
        Value::Object(m) => m,
        _ => {
            let e: Vec<(String, Value)> = Vec::new();
            assert(record_view(e@) =~= seq![]);
            e
        },
    }
}

/// The scratch record after filling in the text of `path`.
pub open spec fn filled(scratch: Seq<(Seq<char>, Tree)>, path: Seq<char>, text: Seq<char>) -> Result<Seq<(Seq<char>, Tree)>, Seq<char>> {
    match fill(Tree::Record(scratch), split_dots(path), 0, text) {
        Ok(Tree::Record(m)) => Ok(m),
        Ok(_) => Err("Could not find key"@),
        Err(e) => Err(e),
    }
}

/// Fills the field of the scratch record at a declared path.
pub fn fill_data(scratch: Vec<(String, Value)>, path: &str, text: String) -> (r: Result<Vec<(String, Value)>, String>)
    ensures
        r matches Ok(m) ==> keys_ascending(record_view(m@)),
        r is Ok <==> filled(record_view(scratch@), path@, text@) is Ok,
        r matches Ok(m) ==> filled(record_view(scratch@), path@, text@) == Ok::<Seq<(Seq<char>, Tree)>, Seq<char>>(record_view(m@)),
        r matches Err(e) ==> filled(record_view(scratch@), path@, text@) == Err::<Seq<(Seq<char>, Tree)>, Seq<char>>(e@),
{
    let comps = split_path(path);
    match fill_value(Value::Object(scratch), &comps, 0, text) {
        Ok(Value::Object(m)) => Ok(m),
        Ok(_) => Err(text_of("Could not find key")),
        Err(e) => Err(e),
    }
}

/// The schema that declaring each entry's path with its type gives.
pub open spec fn declare_all(schema: Seq<(Seq<char>, Tree)>, es: Seq<(Seq<char>, Seq<char>, Seq<char>)>) -> Seq<(Seq<char>, Tree)>
    decreases es.len(),
{
    if es.len() == 0 { schema } else { declare_all(declared(schema, es[0].0, es[0].2), es.drop_first()) }
}

/// The record that filling in each entry's text gives, or the first error.
pub open spec fn fill_all(scratch: Seq<(Seq<char>, Tree)>, es: Seq<(Seq<char>, Seq<char>, Seq<char>)>) -> Result<Seq<(Seq<char>, Tree)>, Seq<char>>
    decreases es.len(),
{
    if es.len() == 0 {
        Ok(scratch)
    } else {
        match filled(scratch, es[0].0, es[0].1) {
            Ok(m) => fill_all(m, es.drop_first()),
            Err(e) => Err(e),
        }
    }
}

/// Unflattening: declare every path with its type, then fill every text in.
pub open spec fn unflat(es: Seq<(Seq<char>, Seq<char>, Seq<char>)>) -> Result<Seq<(Seq<char>, Tree)>, Seq<char>> {
    fill_all(declare_all(seq![], es), es)
}

/// Rebuilds a value from its flattened leaves, as `unflat` says: each path is
/// declared with its type, then filled with its text, as a GraphML reader
/// does with keys and data.
pub fn unflatten(entries: &Vec<crate::flat::FlatEntry>) -> (r: Result<Value, String>)
    ensures
        r is Ok <==> unflat(entries_view(entries@)) is Ok,
        r matches Ok(v) ==> unflat(entries_view(entries@)) matches Ok(m) && v@ == Tree::Record(m),
        r matches Err(e) ==> unflat(entries_view(entries@)) == Err::<Seq<(Seq<char>, Tree)>, Seq<char>>(e@),
{
    let ghost es = entries_view(entries@);
    let mut schema: Vec<(String, Value)> = Vec::new();
    assert(record_view(schema@) =~= seq![]);
    let mut i: usize = 0;
    assert(es.skip(0) =~= es);
    while i < entries.len()
        invariant
            i <= entries@.len(),
            es == entries_view(entries@),
            es.len() == entries@.len(),
            declare_all(seq![], es) == declare_all(record_view(schema@), es.skip(i as int)),
        decreases entries@.len() - i,
    {
        assert(es.skip(i as int)[0] == crate::flat::entry_view(entries@[i as int]));
        assert(es.skip(i as int).drop_first() =~= es.skip(i + 1));
        schema = declare_key(schema, entries[i].path.as_str(), entries[i].kind.clone());
        i = i + 1;
    }
    assert(es.skip(i as int) =~= Seq::<(Seq<char>, Seq<char>, Seq<char>)>::empty());
    let mut j: usize = 0;
    while j < entries.len()
        invariant
            j <= entries@.len(),
            es == entries_view(entries@),
            es.len() == entries@.len(),
            unflat(es) == fill_all(record_view(schema@), es.skip(j as int)),
        decreases entries@.len() - j,
    {
        assert(es.skip(j as int)[0] == crate::flat::entry_view(entries@[j as int]));
        assert(es.skip(j as int).drop_first() =~= es.skip(j + 1));
        schema = fill_data(schema, entries[j].path.as_str(), entries[j].text.clone())?;
        j = j + 1;
    }
    assert(es.skip(j as int) =~= Seq::<(Seq<char>, Seq<char>, Seq<char>)>::empty());
    Ok(Value::Object(schema))
}

proof fn lemma_rec_remove_absent(m: Seq<(Seq<char>, Tree)>, k: Seq<char>)
    requires
        rec_find(m, k) is None,
    ensures
        rec_remove(m, k) == m,
    decreases m.len(),
{
    if m.len() > 0 {
        lemma_rec_remove_absent(m.drop_first(), k);
        assert(seq![m[0]] + m.drop_first() =~= m);
    }
}

/// The label of a finished node or edge: the value bound to the synthetic
/// key when there is one, else the whole scratch record.
pub fn collapse_scratch(scratch: Vec<(String, Value)>, synthetic: &str) -> (r: Value)
    requires
        keys_ascending(record_view(scratch@)),
    ensures
        r@ == (match rec_find(record_view(scratch@), synthetic@) {
            Some(t) => t,
            None => Tree::Record(record_view(scratch@)),
        }),
{
    let mut m = scratch;
    match record_take(&mut m, synthetic) {
        Some(v) => v,
        None => {
            proof { lemma_rec_remove_absent(record_view(scratch@), synthetic@); }
            Value::Object(m)
        },
    }
}

/// A deep copy of a record's fields.
pub fn copy_record(m: &Vec<(String, Value)>) -> (r: Vec<(String, Value)>)
    ensures
        record_view(r@) == record_view(m@),
{
    let mut out: Vec<(String, Value)> = Vec::new();
    let mut i: usize = 0;
    while i < m.len()
        invariant
            i <= m@.len(),
            record_view(out@) == record_view(m@.take(i as int)),
        decreases m@.len() - i,
    {
        let ghost before = out@;
        out.push((m[i].0.clone(), m[i].1.duplicate()));
        assert(out@.drop_last() == before);
        assert(m@.take(i + 1).drop_last() == m@.take(i as int));
        i = i + 1;
    }
    assert(m@.take(m@.len() as int) == m@);
    out
}

/// Whether a declared attribute type is one that GraphML data can hold here.
pub fn known_type(kind: &str) -> (r: bool)
    ensures
        r == (kind@ == "boolean"@ || kind@ == "string"@ || kind@ == "long"@ || kind@ == "double"@),
{
    is_word(kind, "boolean") || is_word(kind, "string") || is_word(kind, "long") || is_word(kind, "double")
}

/// A text copied from a literal.
fn text_of(t: &str) -> (r: String)
    ensures
        r@ == t@,
{
    t.to_owned()
}

/// What a node or edge tag states: a vertex, an edge, nothing (another tag),
/// or the error that a missing or malformed attribute gives. `labeled`
/// selects the messages of the labeled reader.
pub open spec fn tag_step(n: Seq<char>, a: Seq<(Seq<char>, Seq<char>)>, labeled: bool) -> Result<Option<GraphItem>, Seq<char>> {
    if n == "node"@ {
        match attr_get(a, "id"@) {
            None => Err(if labeled { "Missing attribute id"@ } else { "Node missing id attribute"@ }),
            Some(t) => match id_value(t) {
                Some(v) => Ok(Some(GraphItem::Vertex(v))),
                None => Err(if labeled { "Expected id to be unsigned int"@ } else { "Expected ID to be unsigned int"@ }),
            },
        }
    } else if n == "edge"@ {
        if labeled {
            match attr_get(a, "source"@) {
                None => Err("Missing attribute source"@),
                Some(x) => match id_value(x) {
                    None => Err("Expected source to be unsigned int"@),
                    Some(u) => match attr_get(a, "target"@) {
                        None => Err("Missing attribute target"@),
                        Some(y) => match id_value(y) {
                            None => Err("Expected target to be unsigned int"@),
                            Some(w) => Ok(Some(GraphItem::Edge(u, w))),
                        },
                    },
                },
            }
        } else {
            match (attr_get(a, "source"@), attr_get(a, "target"@)) {
                (Some(x), Some(y)) => match id_value(x) {
                    None => Err("Expected source to be unsigned int"@),
                    Some(u) => match id_value(y) {
                        None => Err("Expected target to be unsigned int"@),
                        Some(w) => Ok(Some(GraphItem::Edge(u, w))),
                    },
                },
                _ => Err("Edge missing source/target attributes"@),
            }
        }
    } else {
        Ok(None)
    }
}

pub open spec fn event_step(ev: XmlEv, labeled: bool) -> Result<Option<GraphItem>, Seq<char>> {
    match ev {
        XmlEv::Start(n, a) => tag_step(n, a, labeled),
        XmlEv::Empty(n, a) => tag_step(n, a, labeled),
        _ => Ok(None),
    }
}

/// The vertices and edges that the node and edge tags of an event list
/// state, in order, or the error of the first malformed one.
pub open spec fn graphml_items(evs: Seq<XmlEv>, labeled: bool) -> Result<Seq<GraphItem>, Seq<char>>
    decreases evs.len(),
{
    if evs.len() == 0 {
        Ok(seq![])
    } else {
        match graphml_items(evs.drop_last(), labeled) {
            Err(e) => Err(e),
            Ok(items) => match event_step(evs.last(), labeled) {
                Err(e) => Err(e),
                Ok(None) => Ok(items),
                Ok(Some(it)) => Ok(items.push(it)),
            },
        }
    }
}

proof fn lemma_items_err_stays(evs: Seq<XmlEv>, labeled: bool, i: int, e: Seq<char>)
    requires
        0 <= i <= evs.len(),
        graphml_items(evs.take(i), labeled) == Err::<Seq<GraphItem>, Seq<char>>(e),
    ensures
        graphml_items(evs, labeled) == Err::<Seq<GraphItem>, Seq<char>>(e),
    decreases evs.len() - i,
{
    if i < evs.len() {
        assert(evs.take(i + 1).drop_last() == evs.take(i));
        lemma_items_err_stays(evs, labeled, i + 1, e);
    } else {
        assert(evs.take(i) == evs);
    }
}

/// Reads a vertex id from an attribute.
fn id_of(attrs: &Vec<(String, String)>, name: &str, missing: &str, bad: &str) -> (r: Result<VertexID, String>)
    ensures
        r matches Ok(v) ==> (attr_get(attrs_view(attrs@), name@) matches Some(t) && id_value(t) == Some(v)),
        r matches Err(m) ==> (attr_get(attrs_view(attrs@), name@) is None && m@ == missing@)
            || (attr_get(attrs_view(attrs@), name@) matches Some(t) && id_value(t) is None && m@ == bad@),
        r is Err <==> !(attr_get(attrs_view(attrs@), name@) matches Some(t) && id_value(t) is Some),
{
    match attribute(attrs, name) {
        None => Err(text_of(missing)),
        Some(v) => match parse_id(v.as_str()) {
            Some(id) => Ok(id),
            None => Err(text_of(bad)),
        },
    }
}

/// What one event states, as `event_step` gives it.
fn event_item(ev: &XmlEvent, labeled: bool) -> (r: Result<Option<GraphItem>, String>)
    ensures
        r is Ok <==> event_step(ev_view(*ev), labeled) is Ok,
        r matches Ok(x) ==> event_step(ev_view(*ev), labeled) == Ok::<Option<GraphItem>, Seq<char>>(x),
        r matches Err(m) ==> event_step(ev_view(*ev), labeled) == Err::<Option<GraphItem>, Seq<char>>(m@),
{
    proof {
        reveal_strlit("node");
        reveal_strlit("edge");
    }
    let (name, attrs) = match ev {
        XmlEvent::Start(n, a) => (n, a),
        XmlEvent::Empty(n, a) => (n, a),
        _ => {
            return Ok(None);
        },
    };
    if is_word(name.as_str(), "node") {
        let v = if labeled {
            id_of(attrs, "id", "Missing attribute id", "Expected id to be unsigned int")?
        } else {
            id_of(attrs, "id", "Node missing id attribute", "Expected ID to be unsigned int")?
        };
        Ok(Some(GraphItem::Vertex(v)))
    } else if is_word(name.as_str(), "edge") {
        if labeled {
            let u = id_of(attrs, "source", "Missing attribute source", "Expected source to be unsigned int")?;
            let w = id_of(attrs, "target", "Missing attribute target", "Expected target to be unsigned int")?;
            Ok(Some(GraphItem::Edge(u, w)))
        } else {
            let a = attribute(attrs, "source");
            let b = attribute(attrs, "target");
            if a.is_none() || b.is_none() {
                return Err(text_of("Edge missing source/target attributes"));
            }
            let u = id_of(attrs, "source", "Edge missing source/target attributes", "Expected source to be unsigned int")?;
            let w = id_of(attrs, "target", "Edge missing source/target attributes", "Expected target to be unsigned int")?;
            Ok(Some(GraphItem::Edge(u, w)))
        }
    } else {
        Ok(None)
    }
}

/// The vertices and edges that the node and edge tags state.
pub fn graphml_structure(evs: &Vec<XmlEvent>, labeled: bool) -> (r: Result<Vec<GraphItem>, String>)
    ensures
        r is Ok <==> graphml_items(evs_view(evs@), labeled) is Ok,
        r matches Ok(items) ==> graphml_items(evs_view(evs@), labeled) == Ok::<Seq<GraphItem>, Seq<char>>(items@),
        r matches Err(m) ==> graphml_items(evs_view(evs@), labeled) == Err::<Seq<GraphItem>, Seq<char>>(m@),
{
    let ghost ev = evs_view(evs@);
    let mut items: Vec<GraphItem> = Vec::new();
    let mut i: usize = 0;
    assert(ev.take(0) =~= seq![]);
    while i < evs.len()
        invariant
            i <= evs@.len(),
            ev == evs_view(evs@),
            ev.len() == evs@.len(),
            graphml_items(ev.take(i as int), labeled) == Ok::<Seq<GraphItem>, Seq<char>>(items@),
        decreases evs@.len() - i,
    {
        assert(ev.take(i + 1).drop_last() == ev.take(i as int));
        assert(ev.take(i + 1).last() == ev_view(evs@[i as int]));
        match event_item(&evs[i], labeled) {
            Ok(Some(it)) => items.push(it),
            Ok(None) => {},
            Err(m) => {
                proof { lemma_items_err_stays(ev, labeled, i + 1, m@); }
                return Err(m);
            },
        }
        i = i + 1;
    }
    assert(ev.take(i as int) == ev);
    Ok(items)
}

/// The events of a GraphML text and the vertices and edges they state.
pub open spec fn graphml_read(s: Seq<char>, labeled: bool) -> Option<Result<Seq<GraphItem>, Seq<char>>> {
    match xml_events(s, 0) {
        Some(evs) => Some(graphml_items(evs, labeled)),
        None => None,
    }
}

/// Reads a graph from a GraphML document; data elements are passed over.
/// It succeeds exactly when the text scans as XML and every node and edge
/// tag has its attributes; the graph then holds exactly the vertices and
/// edges those tags state. A malformed tag gives its error message.
pub fn from_graphml<G: GraphTrait>(string: String) -> (r: Result<G, String>)
    ensures
        r is Ok <==> graphml_read(string@, false) matches Some(Ok(_)),
        r matches Ok(g) ==> holds_items::<G>(g.model(), graphml_read(string@, false)->0->Ok_0),
        graphml_read(string@, false) matches Some(Err(e)) ==> (r matches Err(m) && m@ == e),
{
    let evs = xml_document(string.as_str())?;
    let items = graphml_structure(&evs, false)?;
    Ok(build_graph(&items))
}

/// A label that the label pass attaches: to a vertex, or to an edge under its key.
pub enum LabelSet {
    Vertex(VertexID, Tree),
    Edge(EdgeID, Tree),
}

/// The label that the last attachment to `u` gives, if any.
pub open spec fn vlabel_of(asg: Seq<LabelSet>, u: VertexID) -> Option<Tree>
    decreases asg.len(),
{
    if asg.len() == 0 {
        None
    } else {
        match asg.last() {
            LabelSet::Vertex(v, t) => if v == u { Some(t) } else { vlabel_of(asg.drop_last(), u) },
            _ => vlabel_of(asg.drop_last(), u),
        }
    }
}

/// The label that the last attachment to an edge stored like `f` gives, if any.
pub open spec fn elabel_of<G: GraphTrait>(asg: Seq<LabelSet>, f: EdgeID) -> Option<Tree>
    decreases asg.len(),
{
    if asg.len() == 0 {
        None
    } else {
        match asg.last() {
            LabelSet::Edge(k, t) => if G::edge_key(k) == G::edge_key(f) { Some(t) } else { elabel_of::<G>(asg.drop_last(), f) },
            _ => elabel_of::<G>(asg.drop_last(), f),
        }
    }
}

/// The text of a `data` element whose events start at `j`: a text event and
/// an end tag, or an end tag alone; with the position after them.
pub open spec fn data_spec(evs: Seq<XmlEv>, j: int) -> Result<(Seq<char>, int), Seq<char>> {
    if 0 <= j < evs.len() {
        match evs[j] {
            XmlEv::Text(t) => if j + 1 < evs.len() && evs[j + 1] is End {
                Ok((t, j + 2))
            } else {
                Err("Expected the end of a data element"@)
            },
            XmlEv::End(_) => Ok((seq![], j + 1)),
            _ => Err("Expected the text of a data element"@),
        }
    } else {
        Err("Expected the text of a data element"@)
    }
}

/// A vertex id read from an attribute, or the message for a missing or malformed one.
pub open spec fn id_read(a: Seq<(Seq<char>, Seq<char>)>, name: Seq<char>, missing: Seq<char>, bad: Seq<char>) -> Result<VertexID, Seq<char>> {
    match attr_get(a, name) {
        None => Err(missing),
        Some(t) => match id_value(t) {
            Some(v) => Ok(v),
            None => Err(bad),
        },
    }
}

/// The labels that the events from `i` on attach, in order, with the node
/// schema `ns`, the edge schema `es`, the scratch record `sc` and the
/// current node or edge `parent`; or the first error. Keys build the
/// schemas; a node or edge start takes a sorted copy of its schema; each
/// `data` element fills its text in; a node or edge end attaches the filled
/// copy (the value under `0N`/`0E` where there is one) to a vertex or edge
/// that `m` has.
pub open spec fn label_pass<G: GraphTrait>(evs: Seq<XmlEv>, i: int, m: GraphView,
    ns: Seq<(Seq<char>, Tree)>, es: Seq<(Seq<char>, Tree)>, sc: Seq<(Seq<char>, Tree)>, parent: EdgeID) -> Result<Seq<LabelSet>, Seq<char>>
    decreases evs.len() - i,
{
    if i < 0 || i >= evs.len() {
        Ok(seq![])
    } else {
        match evs[i] {
            XmlEv::Start(n, a) => if n == "node"@ {
                match id_read(a, "id"@, "Missing attribute id"@, "Expected id to be unsigned int"@) {
                    Ok(v) => label_pass::<G>(evs, i + 1, m, ns, es, resort(ns), (v, v)),
                    Err(e) => Err(e),
                }
            } else if n == "edge"@ {
                match id_read(a, "source"@, "Missing attribute source"@, "Expected source to be unsigned int"@) {
                    Err(e) => Err(e),
                    Ok(u) => match id_read(a, "target"@, "Missing attribute target"@, "Expected target to be unsigned int"@) {
                        Err(e) => Err(e),
                        Ok(w) => label_pass::<G>(evs, i + 1, m, ns, es, resort(es), (u, w)),
                    },
                }
            } else if n == "data"@ {
                match attr_get(a, "key"@) {
                    None => Err("Missing attribute key"@),
                    Some(key) => match data_spec(evs, i + 1) {
                        Err(e) => Err(e),
                        Ok((text, k)) => match filled(sc, key, text) {
                            Err(e) => Err(e),
                            Ok(sc2) => if k > i { label_pass::<G>(evs, k, m, ns, es, sc2, parent) } else { Err(seq![]) },
                        },
                    },
                }
            } else {
                label_pass::<G>(evs, i + 1, m, ns, es, sc, parent)
            },
            XmlEv::Empty(n, a) => if n == "key"@ {
                match attr_get(a, "id"@) {
                    None => Err("Missing attribute id"@),
                    Some(id) => {
                        let kind = match attr_get(a, "attr.type"@) { Some(k) => k, None => "string"@ };
                        if !(kind == "boolean"@ || kind == "string"@ || kind == "long"@ || kind == "double"@) {
                            Err("Unknown type"@)
                        } else {
                            match attr_get(a, "for"@) {
                                None => Err("Missing attribute for"@),
                                Some(d) => if d == "node"@ {
                                    label_pass::<G>(evs, i + 1, m, declared(ns, id, kind), es, sc, parent)
                                } else {
                                    label_pass::<G>(evs, i + 1, m, ns, declared(es, id, kind), sc, parent)
                                },
                            }
                        }
                    },
                }
            } else {
                label_pass::<G>(evs, i + 1, m, ns, es, sc, parent)
            },
            XmlEv::End(n) => {
                let rest = label_pass::<G>(evs, i + 1, m, ns, es, seq![], parent);
                if n == "node"@ && sc.len() > 0 {
                    let lab = match rec_find(sc, "0N"@) { Some(t) => t, None => Tree::Record(sc) };
                    if m.vertices.contains(parent.0) {
                        match rest { Ok(r) => Ok(seq![LabelSet::Vertex(parent.0, lab)] + r), Err(e) => Err(e) }
                    } else {
                        rest
                    }
                } else if n == "edge"@ && sc.len() > 0 {
                    let lab = match rec_find(sc, "0E"@) { Some(t) => t, None => Tree::Record(sc) };
                    let key = G::edge_key(parent);
                    if m.edges.contains(G::edge_key(parent)) && m.edges.contains(G::edge_key(key)) {
                        match rest { Ok(r) => Ok(seq![LabelSet::Edge(key, lab)] + r), Err(e) => Err(e) }
                    } else {
                        rest
                    }
                } else {
                    label_pass::<G>(evs, i + 1, m, ns, es, sc, parent)
                }
            },
            _ => label_pass::<G>(evs, i + 1, m, ns, es, sc, parent),
        }
    }
}

/// Reads the text of a `data` element that starts at event `i`: the text
/// event and the end tag, or only the end tag.
fn data_text(evs: &Vec<XmlEvent>, i: usize) -> (r: Result<(String, usize), String>)
    requires
        i <= evs@.len(),
    ensures
        r matches Ok((t, k)) ==> data_spec(evs_view(evs@), i as int) == Ok::<(Seq<char>, int), Seq<char>>((t@, k as int)) && i < k <= evs@.len(),
        r matches Err(m) ==> data_spec(evs_view(evs@), i as int) == Err::<(Seq<char>, int), Seq<char>>(m@),
{
    if i < evs.len() {
        match &evs[i] {
            XmlEvent::Text(t) => {
                if i + 1 < evs.len() {
                    if let XmlEvent::End(_) = &evs[i + 1] {
                        return Ok((t.clone(), i + 2));
                    }
                }
                Err(text_of("Expected the end of a data element"))
            },
            XmlEvent::End(_) => Ok((String::new(), i + 1)),
            _ => Err(text_of("Expected the text of a data element")),
        }
    } else {
        Err(text_of("Expected the text of a data element"))
    }
}

/// Reads a labeled graph from a GraphML document. The vertices and edges
/// are those that the node and edge tags state, as `from_graphml` reads them
/// (with this reader's messages, which win over any other error). Then the
/// label pass of `label_pass` runs over the events: each vertex and edge gets
/// the label that its last attachment gives.
pub fn labeled_from_graphml<G: GraphTrait>(string: String) -> (r: Result<HashMapLabeledGraph<G>, String>)
    ensures
        r is Ok <==> (graphml_read(string@, true) matches Some(Ok(_))
            && label_pass::<G>(xml_events(string@, 0)->0, 0, graph_of_items::<G>(graphml_read(string@, true)->0->Ok_0), seq![], seq![], seq![], (0, 0)) is Ok),
        r matches Ok(g) ==> holds_items::<G>(g.model(), graphml_read(string@, true)->0->Ok_0),
        r matches Ok(g) ==> (forall|u: VertexID| g.model().vertices.contains(u) ==> #[trigger] g.vertex_label(u)
            == vlabel_of(label_pass::<G>(xml_events(string@, 0)->0, 0, g.model(), seq![], seq![], seq![], (0, 0))->Ok_0, u)),
        r matches Ok(g) ==> (forall|f: EdgeID| g.model().edges.contains(G::edge_key(f)) ==> #[trigger] g.edge_label(f)
            == elabel_of::<G>(label_pass::<G>(xml_events(string@, 0)->0, 0, g.model(), seq![], seq![], seq![], (0, 0))->Ok_0, f)),
        graphml_read(string@, true) matches Some(Err(e)) ==> (r matches Err(m) && m@ == e),
{
    let evs = xml_document(string.as_str())?;
    let ghost ev = evs_view(evs@);
    let items = graphml_structure(&evs, true)?;
    let plain = build_graph::<G>(&items);
    let mut graph = HashMapLabeledGraph::from_graph(plain);
    let ghost m0 = graph.model();
    proof { lemma_graph_of_items::<G>(m0, items@); }
    let mut node_schema: Vec<(String, Value)> = Vec::new();
    let mut edge_schema: Vec<(String, Value)> = Vec::new();
    let mut scratch: Vec<(String, Value)> = Vec::new();
    let mut parent: EdgeID = (0, 0);
    let ghost mut done: Seq<LabelSet> = seq![];
    let ghost full = label_pass::<G>(ev, 0, m0, seq![], seq![], seq![], (0, 0));
    assert(record_view(node_schema@) =~= seq![]);
    assert(record_view(scratch@) =~= seq![]);
    let mut i: usize = 0;
    while i < evs.len()
        invariant
            i <= evs@.len(),
            ev == evs_view(evs@),
            ev.len() == evs@.len(),
            graph.model() == m0,
            m0.wf(),
            keys_ascending(record_view(scratch@)),
            graphml_read(string@, true) == Some(Ok::<Seq<GraphItem>, Seq<char>>(items@)),
            xml_events(string@, 0) == Some(ev),
            holds_items::<G>(m0, items@),
            m0 == graph_of_items::<G>(items@),
            full == label_pass::<G>(ev, 0, m0, seq![], seq![], seq![], (0, 0)),
            full == (match label_pass::<G>(ev, i as int, m0, record_view(node_schema@), record_view(edge_schema@), record_view(scratch@), parent) {
                Ok(rest) => Ok(done + rest),
                Err(e) => Err(e),
            }),
            forall|u: VertexID| m0.vertices.contains(u) ==> #[trigger] graph.vertex_label(u) == vlabel_of(done, u),
            forall|f: EdgeID| m0.edges.contains(G::edge_key(f)) ==> #[trigger] graph.edge_label(f) == elabel_of::<G>(done, f),
        decreases evs@.len() - i,
    {
        proof {
            reveal_strlit("node"); reveal_strlit("edge"); reveal_strlit("data"); reveal_strlit("key");
            reveal_strlit("0N"); reveal_strlit("0E");
        }
        assert(ev[i as int] == ev_view(evs@[i as int]));
        let mut next = i + 1;
        match &evs[i] {
            XmlEvent::Start(name, attrs) => {
                if is_word(name.as_str(), "node") {
                    scratch = resorted(copy_record(&node_schema));
                    let id = id_of(attrs, "id", "Missing attribute id", "Expected id to be unsigned int")?;
                    parent = (id, id);
                } else if is_word(name.as_str(), "edge") {
                    let source = id_of(attrs, "source", "Missing attribute source", "Expected source to be unsigned int")?;
                    let target = id_of(attrs, "target", "Missing attribute target", "Expected target to be unsigned int")?;
                    scratch = resorted(copy_record(&edge_schema));
                    parent = (source, target);
                } else if is_word(name.as_str(), "data") {
                    let key = match attribute(attrs, "key") {
                        Some(k) => k.clone(),
                        None => {
                            return Err(text_of("Missing attribute key"));
                        },
                    };
                    let (text, k) = data_text(&evs, i + 1)?;
                    scratch = fill_data(scratch, key.as_str(), text)?;
                    next = k;
                }
            },
            XmlEvent::Empty(name, attrs) => {
                if is_word(name.as_str(), "key") {
                    let id = match attribute(attrs, "id") {
                        Some(k) => k.clone(),
                        None => {
                            return Err(text_of("Missing attribute id"));
                        },
                    };
                    let kind = match attribute(attrs, "attr.type") {
                        Some(k) => k.clone(),
                        None => text_of("string"),
                    };
                    if !known_type(kind.as_str()) {
                        return Err(text_of("Unknown type"));
                    }
                    let domain = match attribute(attrs, "for") {
                        Some(k) => k.clone(),
                        None => {
                            return Err(text_of("Missing attribute for"));
                        },
                    };
                    if is_word(domain.as_str(), "node") {
                        node_schema = declare_key(node_schema, id.as_str(), kind);
                    } else {
                        edge_schema = declare_key(edge_schema, id.as_str(), kind);
                    }
                }
            },
            XmlEvent::End(name) => {
                let ghost sc0 = record_view(scratch@);
                if is_word(name.as_str(), "node") && scratch.len() > 0 {
                    let done_sc = scratch;
                    scratch = Vec::new();
                    assert(record_view(scratch@) =~= seq![]);
                    if graph.contains(parent.0) {
                        let lab = collapse_scratch(done_sc, "0N");
                        let ghost g0 = graph;
                        graph.set_vertex_label(parent.0, lab);
                        proof {
                            crate::laws::lemma_same_sets_same_model(graph.model(), g0.model());
                            let d2 = done.push(LabelSet::Vertex(parent.0, lab@));
                            assert(d2.drop_last() == done);
                            match label_pass::<G>(ev, i + 1, m0, record_view(node_schema@), record_view(edge_schema@), seq![], parent) {
                                Ok(r2) => { assert(done + (seq![LabelSet::Vertex(parent.0, lab@)] + r2) =~= d2 + r2); },
                                Err(_) => {},
                            }
                            done = d2;
                        }
                    }
                } else if is_word(name.as_str(), "edge") && scratch.len() > 0 {
                    let done_sc = scratch;
                    scratch = Vec::new();
                    assert(record_view(scratch@) =~= seq![]);
                    let key = G::edge_key_of(parent);
                    if graph.has_edge(parent) && graph.has_edge(key) {
                        let lab = collapse_scratch(done_sc, "0E");
                        let ghost g0 = graph;
                        assert(m0.edges.contains(key));
                        graph.set_edge_label(key, lab);
                        proof {
                            crate::laws::lemma_same_sets_same_model(graph.model(), g0.model());
                            let d2 = done.push(LabelSet::Edge(key, lab@));
                            assert(d2.drop_last() == done);
                            assert forall|f: EdgeID| m0.edges.contains(G::edge_key(f)) implies #[trigger] graph.edge_label(f) == elabel_of::<G>(d2, f) by {
                                if G::edge_key(f) == G::edge_key(key) {
                                    graph.lemma_edge_label_by_key(f, key);
                                } else {
                                    assert(g0.edge_label(f) == elabel_of::<G>(done, f));
                                }
                            }
                            match label_pass::<G>(ev, i + 1, m0, record_view(node_schema@), record_view(edge_schema@), seq![], parent) {
                                Ok(r2) => { assert(done + (seq![LabelSet::Edge(key, lab@)] + r2) =~= d2 + r2); },
                                Err(_) => {},
                            }
                            done = d2;
                        }
                    }
                }
            },
            _ => {},
        }
        i = next;
    }
    proof {
        assert(done + seq![] =~= done);
    }
    Ok(graph)
}

/// The graph that a list of statements builds, as `build_graph` builds it.
pub open spec fn graph_of_items<G: GraphTrait>(items: Seq<GraphItem>) -> GraphView {
    choose|m: GraphView| holds_items::<G>(m, items)
}

proof fn lemma_graph_of_items<G: GraphTrait>(m: GraphView, items: Seq<GraphItem>)
    requires
        holds_items::<G>(m, items),
    ensures
        graph_of_items::<G>(items) == m,
{
    let c = graph_of_items::<G>(items);
    assert(holds_items::<G>(c, items));
    assert forall|u: usize| c.vertices.contains(u) <==> m.vertices.contains(u) by {}
    assert forall|p: (usize, usize)| c.edges.contains(p) <==> m.edges.contains(p) by {}
    crate::laws::lemma_same_sets_same_model(c, m);
}

/// Whether the labels that the label pass attaches to the vertices and edges
/// of `m` decode: vertex labels as `V`, edge labels as `E`.
pub open spec fn attached_labels_decode<G: GraphTrait, V: TypedValue, E: TypedValue>(m: GraphView, asg: Seq<LabelSet>) -> bool {
    &&& forall|u: VertexID| #[trigger] m.vertices.contains(u) ==> (vlabel_of(asg, u) matches Some(t) ==> V::decodable(t))
    &&& forall|p: EdgeID| #[trigger] m.edges.contains(p) ==> (elabel_of::<G>(asg, p) matches Some(t) ==> E::decodable(t))
}

/// Reads a labeled graph from a GraphML document, as `labeled_from_graphml`
/// does, and also requires every label to decode: vertex labels as `V`, edge
/// labels as `E`. A label that does not decode fails the read with its
/// decode message.
pub fn decoded_from_graphml<G: GraphTrait, V: TypedValue, E: TypedValue>(string: String) -> (r: Result<HashMapLabeledGraph<G>, String>)
    ensures
        r is Ok <==> (graphml_read(string@, true) matches Some(Ok(items))
            && label_pass::<G>(xml_events(string@, 0)->0, 0, graph_of_items::<G>(items), seq![], seq![], seq![], (0, 0)) matches Ok(asg)
            && attached_labels_decode::<G, V, E>(graph_of_items::<G>(items), asg)),
        r matches Ok(g) ==> holds_items::<G>(g.model(), graphml_read(string@, true)->0->Ok_0),
        r matches Ok(g) ==> (forall|u: VertexID| g.model().vertices.contains(u) ==> #[trigger] g.vertex_label(u)
            == vlabel_of(label_pass::<G>(xml_events(string@, 0)->0, 0, g.model(), seq![], seq![], seq![], (0, 0))->Ok_0, u)),
        r matches Ok(g) ==> (forall|f: EdgeID| g.model().edges.contains(G::edge_key(f)) ==> #[trigger] g.edge_label(f)
            == elabel_of::<G>(label_pass::<G>(xml_events(string@, 0)->0, 0, g.model(), seq![], seq![], seq![], (0, 0))->Ok_0, f)),
        graphml_read(string@, true) matches Some(Err(e)) ==> (r matches Err(m) && m@ == e),
{
    let g = labeled_from_graphml::<G>(string)?;
    g.edges_are_keys();
    proof {
        let items = graphml_read(string@, true)->0->Ok_0;
        lemma_graph_of_items::<G>(g.model(), items);
    }
    check_labels::<G, V, E>(&g)?;
    Ok(g)
}

} // verus!
