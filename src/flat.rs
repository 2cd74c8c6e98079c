//! Flattening a value tree into dotted-path leaf entries, as GraphML's
//! attribute keys need them.
use vstd::prelude::*;
use crate::text::{decimal, signed_decimal, push_decimal, push_signed, push_usize};
use crate::value::{Value, Tree, value_view, list_view, record_view, lemma_list_view_index, lemma_record_view_index, lemma_list_view_len, lemma_record_view_len};

verus! {

/// One leaf of a flattened value: its dotted path, its text and its type tag.
#[derive(Debug)]
pub struct FlatEntry {
    pub path: String,
    pub text: String,
    pub kind: String,
}

pub open spec fn entry_view(e: FlatEntry) -> (Seq<char>, Seq<char>, Seq<char>) {
    (e.path@, e.text@, e.kind@)
}

pub open spec fn entries_view(s: Seq<FlatEntry>) -> Seq<(Seq<char>, Seq<char>, Seq<char>)> {
    s.map_values(|e: FlatEntry| entry_view(e))
}

/// The path of a child: the parent's path, a dot, the child's name; an empty
/// parent path adds no dot.
pub open spec fn child_path(root: Seq<char>, name: Seq<char>) -> Seq<char> {
    if root.len() == 0 { name } else { root + "."@ + name }
}

/// The text of a leaf.
pub open spec fn leaf_text(t: Tree) -> Seq<char> {
    match t {
        Tree::Bool(b) => if b { "true"@ } else { "false"@ },
        Tree::Int(i) => signed_decimal(i),
        Tree::Unsigned(u) => decimal(u as nat),
        Tree::Float(s) => s,
        Tree::Text(s) => s,
        _ => seq![],
    }
}

/// The GraphML type tag of a leaf; empty for a null.
pub open spec fn leaf_kind(t: Tree) -> Seq<char> {
    match t {
        Tree::Bool(_) => "boolean"@,
        Tree::Int(_) => "long"@,
        Tree::Unsigned(_) => "long"@,
        Tree::Float(_) => "double"@,
        Tree::Text(_) => "string"@,
        _ => seq![],
    }
}

/// The leaves of a value under the path `root`: record fields in their order,
/// list items by ascending index.
pub open spec fn flat(root: Seq<char>, t: Tree) -> Seq<(Seq<char>, Seq<char>, Seq<char>)>
    decreases t,
{
    match t {
        Tree::Record(m) => flat_record(root, m),
        Tree::List(xs) => flat_list(root, xs),
        _ => seq![(root, leaf_text(t), leaf_kind(t))],
    }
}

pub open spec fn flat_record(root: Seq<char>, m: Seq<(Seq<char>, Tree)>) -> Seq<(Seq<char>, Seq<char>, Seq<char>)>
    decreases m,
{
    if m.len() == 0 {
        seq![]
    } else {
        flat_record(root, m.drop_last()) + flat(child_path(root, m.last().0), m.last().1)
    }
}

pub open spec fn flat_list(root: Seq<char>, xs: Seq<Tree>) -> Seq<(Seq<char>, Seq<char>, Seq<char>)>
    decreases xs,
{
    if xs.len() == 0 {
        seq![]
    } else {
        flat_list(root, xs.drop_last()) + flat(child_path(root, decimal((xs.len() - 1) as nat)), xs.last())
    }
}

/// The path of a named child.
fn child_of(root: &String, name: &String) -> (r: String)
    ensures
        r@ == child_path(root@, name@),
{
    let mut r = root.clone();
    if r.unicode_len() > 0 {
        r.append(".");
    }
    r.append(name.as_str());
    r
}

/// The path of the child at an index.
fn indexed_child(root: &String, i: usize) -> (r: String)
    ensures
        r@ == child_path(root@, decimal(i as nat)),
{
    let mut name = String::new();
    push_usize(&mut name, i);
    child_of(root, &name)
}

/// Appends the leaves of `v` under the path `root` to `out`.
pub fn get_flat_map(root: &String, v: &Value, out: &mut Vec<FlatEntry>)
    ensures
        entries_view(final(out)@) == entries_view(old(out)@) + flat(root@, v@),
    decreases v,
{
    let ghost start = entries_view(out@);
    match v {
        Value::Object(m) => {
            let mut i: usize = 0;
            while i < m.len()
                invariant
                    *v == Value::Object(*m),
                    i <= m@.len(),
                    entries_view(out@) == start + flat_record(root@, record_view(m@).take(i as int)),
                decreases m@.len() - i,
            {
                proof {
                    assert(decreases_to!(*v => v->Object_0));
                    assert(decreases_to!(v->Object_0 => v->Object_0@));
                    assert(decreases_to!(v->Object_0@ => v->Object_0@[i as int]));
                    assert(decreases_to!(v->Object_0@[i as int] => v->Object_0@[i as int].1));
                    lemma_record_view_index(m@, i as int);
                    assert(record_view(m@).take(i + 1).drop_last() == record_view(m@).take(i as int));
                }
                let path = child_of(root, &m[i].0);
                get_flat_map(&path, &m[i].1, out);
                i = i + 1;
            }
            proof {
                lemma_record_view_len(m@);
                assert(record_view(m@).take(m@.len() as int) == record_view(m@));
            }
        },
        Value::Array(a) => {
            let mut i: usize = 0;
            while i < a.len()
                invariant
                    *v == Value::Array(*a),
                    i <= a@.len(),
                    entries_view(out@) == start + flat_list(root@, list_view(a@).take(i as int)),
                decreases a@.len() - i,
            {
                proof {
                    assert(decreases_to!(*v => v->Array_0));
                    assert(decreases_to!(v->Array_0 => v->Array_0@));
                    assert(decreases_to!(v->Array_0@ => v->Array_0@[i as int]));
                    lemma_list_view_index(a@, i as int);
                    assert(list_view(a@).take(i + 1).drop_last() == list_view(a@).take(i as int));
                }
                let path = indexed_child(root, i);
                get_flat_map(&path, &a[i], out);
                i = i + 1;
            }
            proof {
                lemma_list_view_len(a@);
                assert(list_view(a@).take(a@.len() as int) == list_view(a@));
            }
        },
        _ => {
            let mut text = String::new();
            let mut kind = String::new();
            match v {
                Value::Bool(b) => {
                    if *b { text.append("true"); } else { text.append("false"); }
                    kind.append("boolean");
                },
                Value::Int(n) => {
                    push_signed(&mut text, *n);
                    kind.append("long");
                },
                Value::Unsigned(n) => {
                    push_decimal(&mut text, *n);
                    kind.append("long");
                },
                Value::Float(s) => {
                    text.append(s.as_str());
                    kind.append("double");
                },
                Value::String(s) => {
                    text.append(s.as_str());
                    kind.append("string");
                },
                _ => {},
            }
            let ghost before = out@;
            out.push(FlatEntry { path: root.clone(), text, kind });
            assert(entries_view(out@) =~= entries_view(before).push(entry_view(out@.last())));
            assert(flat(root@, v@) =~= seq![(root@, leaf_text(v@), leaf_kind(v@))]);
        },
    }
}

} // verus!
