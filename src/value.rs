//! The universal value model: any label shape as a tree of scalars, lists and
//! records with text keys.
use vstd::prelude::*;

verus! {

/// A label of any shape. Record keys are kept strictly ascending.
/// A floating-point number is kept as its decimal text.
#[derive(Debug)]
pub enum Value {
    Null,
    Object(Vec<(String, Value)>),
    Array(Vec<Value>),
    Bool(bool),
    String(String),
    Int(i64),
    Float(String),
    Unsigned(u64),
}

/// What a `Value` denotes.
pub enum Tree {
    Null,
    Record(Seq<(Seq<char>, Tree)>),
    List(Seq<Tree>),
    Bool(bool),
    Text(Seq<char>),
    Int(int),
    Float(Seq<char>),
    Unsigned(int),
}

pub open spec fn list_view(s: Seq<Value>) -> Seq<Tree>
    decreases s,
{
    if s.len() == 0 {
        seq![]
    } else {
        list_view(s.drop_last()).push(value_view(s.last()))
    }
}

pub open spec fn record_view(s: Seq<(String, Value)>) -> Seq<(Seq<char>, Tree)>
    decreases s,
{
    if s.len() == 0 {
        seq![]
    } else {
        record_view(s.drop_last()).push((s.last().0@, value_view(s.last().1)))
    }
}

pub open spec fn value_view(v: Value) -> Tree
    decreases v,
{
    match v {
        Value::Null => Tree::Null,
        Value::Object(m) => Tree::Record(record_view(m@)),
        Value::Array(a) => Tree::List(list_view(a@)),
        Value::Bool(b) => Tree::Bool(b),
        Value::String(s) => Tree::Text(s@),
        Value::Int(i) => Tree::Int(i as int),
        Value::Float(s) => Tree::Float(s@),
        Value::Unsigned(u) => Tree::Unsigned(u as int),
    }
}

impl View for Value {
    type V = Tree;

    open spec fn view(&self) -> Tree {
        value_view(*self)
    }
}

/// Lexicographic order on texts, by character code.
pub open spec fn text_lt(a: Seq<char>, b: Seq<char>) -> bool
    decreases a.len(),
{
    if a.len() == 0 {
        b.len() > 0
    } else if b.len() == 0 {
        false
    } else if a[0] != b[0] {
        a[0] < b[0]
    } else {
        text_lt(a.drop_first(), b.drop_first())
    }
}

/// Record keys strictly ascending.
pub open spec fn keys_ascending(m: Seq<(Seq<char>, Tree)>) -> bool {
    forall|i: int, j: int| 0 <= i < j < m.len() ==> text_lt(m[i].0, m[j].0)
}

/// The value at `key` in a record, if present.
pub open spec fn record_get(m: Seq<(Seq<char>, Tree)>, key: Seq<char>) -> Option<Tree>
    decreases m.len(),
{
    if m.len() == 0 {
        None
    } else if m.last().0 == key {
        Some(m.last().1)
    } else {
        record_get(m.drop_last(), key)
    }
}

/// Whether a value is a leaf: neither a list nor a record.
pub open spec fn is_leaf(t: Tree) -> bool {
    !(t is List) && !(t is Record)
}

pub proof fn lemma_list_view_len(s: Seq<Value>)
    ensures
        list_view(s).len() == s.len(),
    decreases s.len(),
{
    if s.len() > 0 {
        lemma_list_view_len(s.drop_last());
    }
}

pub proof fn lemma_list_view_index(s: Seq<Value>, i: int)
    requires
        0 <= i < s.len(),
    ensures
        list_view(s).len() == s.len(),
        list_view(s)[i] == value_view(s[i]),
    decreases s.len(),
{
    lemma_list_view_len(s);
    if i < s.len() - 1 {
        lemma_list_view_index(s.drop_last(), i);
    }
}

pub proof fn lemma_record_view_index(s: Seq<(String, Value)>, i: int)
    requires
        0 <= i < s.len(),
    ensures
        record_view(s).len() == s.len(),
        record_view(s)[i] == (s[i].0@, value_view(s[i].1)),
    decreases s.len(),
{
    lemma_record_view_len(s);
    if i < s.len() - 1 {
        lemma_record_view_index(s.drop_last(), i);
    }
}

pub proof fn lemma_record_view_len(s: Seq<(String, Value)>)
    ensures
        record_view(s).len() == s.len(),
    decreases s.len(),
{
    if s.len() > 0 {
        lemma_record_view_len(s.drop_last());
    }
}

pub proof fn lemma_text_lt_irreflexive(a: Seq<char>)
    ensures
        !text_lt(a, a),
    decreases a.len(),
{
    if a.len() > 0 {
        lemma_text_lt_irreflexive(a.drop_first());
    }
}

pub proof fn lemma_text_lt_transitive(a: Seq<char>, b: Seq<char>, c: Seq<char>)
    requires
        text_lt(a, b),
        text_lt(b, c),
    ensures
        text_lt(a, c),
    decreases a.len(),
{
    if a.len() > 0 && b.len() > 0 && c.len() > 0 && a[0] == b[0] && b[0] == c[0] {
        lemma_text_lt_transitive(a.drop_first(), b.drop_first(), c.drop_first());
    }
}

pub proof fn lemma_text_lt_total(a: Seq<char>, b: Seq<char>)
    ensures
        text_lt(a, b) || text_lt(b, a) || a == b,
    decreases a.len(),
{
    if a.len() > 0 && b.len() > 0 && a[0] == b[0] {
        lemma_text_lt_total(a.drop_first(), b.drop_first());
        if a.drop_first() == b.drop_first() {
            assert(a =~= seq![a[0]] + a.drop_first());
            assert(b =~= seq![b[0]] + b.drop_first());
        }
    } else if a.len() == 0 && b.len() == 0 {
        assert(a =~= b);
    }
}

pub proof fn lemma_text_lt_asymmetric(a: Seq<char>, b: Seq<char>)
    requires
        text_lt(a, b),
    ensures
        !text_lt(b, a),
    decreases a.len(),
{
    if a.len() > 0 && b.len() > 0 && a[0] == b[0] {
        lemma_text_lt_asymmetric(a.drop_first(), b.drop_first());
    }
}

proof fn lemma_text_lt_skip(a: Seq<char>, b: Seq<char>, i: int)
    requires
        0 <= i <= a.len(),
        i <= b.len(),
        a.take(i) == b.take(i),
    ensures
        text_lt(a, b) == text_lt(a.skip(i), b.skip(i)),
    decreases i,
{
    if i > 0 {
        assert(a[0] == a.take(i)[0]);
        assert(b[0] == b.take(i)[0]);
        assert(a.drop_first().take(i - 1) =~= a.take(i).drop_first());
        assert(b.drop_first().take(i - 1) =~= b.take(i).drop_first());
        lemma_text_lt_skip(a.drop_first(), b.drop_first(), i - 1);
        assert(a.drop_first().skip(i - 1) =~= a.skip(i));
        assert(b.drop_first().skip(i - 1) =~= b.skip(i));
    } else {
        assert(a.skip(0) =~= a);
        assert(b.skip(0) =~= b);
    }
}

/// Compares two texts: negative, zero or positive as `a` comes before, equals or follows `b`.
pub fn compare_text(a: &str, b: &str) -> (r: i8)
    ensures
        (r < 0) == text_lt(a@, b@),
        (r == 0) == (a@ == b@),
        (r > 0) == text_lt(b@, a@),
{
    let n = a.unicode_len();
    let m = b.unicode_len();
    let mut i: usize = 0;
    while i < n && i < m && a.get_char(i) == b.get_char(i)
        invariant
            n == a@.len(),
            m == b@.len(),
            i <= n,
            i <= m,
            a@.take(i as int) == b@.take(i as int),
        decreases n - i,
    {
        assert(a@.take(i + 1) =~= a@.take(i as int).push(a@[i as int]));
        assert(b@.take(i + 1) =~= b@.take(i as int).push(b@[i as int]));
        i = i + 1;
    }
    proof {
        lemma_text_lt_skip(a@, b@, i as int);
        lemma_text_lt_skip(b@, a@, i as int);
        lemma_text_lt_irreflexive(a@);
    }
    if i == n && i == m {
        assert(a@ =~= a@.take(i as int));
        assert(b@ =~= b@.take(i as int));
        0
    } else if i == n {
        assert(a@ != b@);
        -1
    } else if i == m {
        assert(a@ != b@) by {
            if a@ == b@ {
                assert(a@.len() == b@.len());
            }
        }
        1
    } else if a.get_char(i) < b.get_char(i) {
        assert(a@ != b@) by {
            if a@ == b@ {
                assert(a@[i as int] == b@[i as int]);
            }
        }
        -1
    } else {
        assert(a@ != b@) by {
            if a@ == b@ {
                assert(a@[i as int] == b@[i as int]);
            }
        }
        1
    }
}

/// What a record holds at a key after one more binding of that key: the new
/// value alone, a list that grows by it, or a list of the earlier value and it.
pub open spec fn collapse(prev: Option<Tree>, v: Tree) -> Tree {
    match prev {
        None => v,
        Some(Tree::List(xs)) => Tree::List(xs.push(v)),
        Some(x) => Tree::List(seq![x, v]),
    }
}

pub proof fn lemma_record_view_as_new(s: Seq<(String, Value)>)
    ensures
        record_view(s) == Seq::new(s.len(), |i: int| (s[i].0@, value_view(s[i].1))),
{
    lemma_record_view_len(s);
    assert forall|i: int| 0 <= i < s.len() implies record_view(s)[i] == (s[i].0@, value_view(s[i].1)) by {
        lemma_record_view_index(s, i);
    }
    assert(record_view(s) =~= Seq::new(s.len(), |i: int| (s[i].0@, value_view(s[i].1))));
}

pub proof fn lemma_list_view_as_new(s: Seq<Value>)
    ensures
        list_view(s) == Seq::new(s.len(), |i: int| value_view(s[i])),
{
    lemma_list_view_len(s);
    assert forall|i: int| 0 <= i < s.len() implies list_view(s)[i] == value_view(s[i]) by {
        lemma_list_view_index(s, i);
    }
    assert(list_view(s) =~= Seq::new(s.len(), |i: int| value_view(s[i])));
}

pub proof fn lemma_record_get_found(m: Seq<(Seq<char>, Tree)>, j: int)
    requires
        keys_ascending(m),
        0 <= j < m.len(),
    ensures
        record_get(m, m[j].0) == Some(m[j].1),
    decreases m.len(),
{
    if j < m.len() - 1 {
        assert(text_lt(m[j].0, m.last().0));
        if m.last().0 == m[j].0 {
            lemma_text_lt_irreflexive(m[j].0);
        }
        assert(m.drop_last()[j] == m[j]);
        lemma_record_get_found(m.drop_last(), j);
    }
}

pub proof fn lemma_record_get_absent(m: Seq<(Seq<char>, Tree)>, k: Seq<char>)
    requires
        forall|j: int| 0 <= j < m.len() ==> m[j].0 != k,
    ensures
        record_get(m, k) is None,
    decreases m.len(),
{
    if m.len() > 0 {
        assert forall|j: int| 0 <= j < m.len() - 1 implies m.drop_last()[j].0 != k by {
            assert(m.drop_last()[j] == m[j]);
        }
        lemma_record_get_absent(m.drop_last(), k);
    }
}

/// `record_get` on a record whose keys ascend: the binding at the position
/// of the key, if any.
pub proof fn lemma_record_get_exact(m: Seq<(Seq<char>, Tree)>, k: Seq<char>)
    requires
        keys_ascending(m),
    ensures
        (exists|j: int| 0 <= j < m.len() && m[j].0 == k) ==> {
            let j = choose|j: int| 0 <= j < m.len() && m[j].0 == k;
            record_get(m, k) == Some(m[j].1)
        },
        !(exists|j: int| 0 <= j < m.len() && m[j].0 == k) ==> record_get(m, k) is None,
{
    if exists|j: int| 0 <= j < m.len() && m[j].0 == k {
        let j = choose|j: int| 0 <= j < m.len() && m[j].0 == k;
        lemma_record_get_found(m, j);
    } else {
        lemma_record_get_absent(m, k);
    }
}

/// The record after binding `key` to `v`: inserted in key order, or, where
/// the key is bound already, collapsed with the earlier value.
pub open spec fn rec_add(m: Seq<(Seq<char>, Tree)>, key: Seq<char>, v: Tree) -> Seq<(Seq<char>, Tree)>
    decreases m.len(),
{
    if m.len() == 0 {
        seq![(key, v)]
    } else if m[0].0 == key {
        seq![(key, collapse(Some(m[0].1), v))] + m.drop_first()
    } else if text_lt(key, m[0].0) {
        seq![(key, v)] + m
    } else {
        seq![m[0]] + rec_add(m.drop_first(), key, v)
    }
}

proof fn lemma_rec_add_at(m: Seq<(Seq<char>, Tree)>, key: Seq<char>, v: Tree, i: int)
    requires
        0 <= i <= m.len(),
        forall|k: int| 0 <= k < i ==> text_lt(#[trigger] m[k].0, key),
        i < m.len() ==> !text_lt(m[i].0, key),
    ensures
        rec_add(m, key, v) == if i < m.len() && m[i].0 == key {
            m.take(i) + seq![(key, collapse(Some(m[i].1), v))] + m.skip(i + 1)
        } else {
            m.take(i) + seq![(key, v)] + m.skip(i)
        },
    decreases i,
{
    if i == 0 {
        if m.len() > 0 && m[0].0 != key {
            lemma_text_lt_total(m[0].0, key);
        }
        assert(m.skip(0) =~= m);
        assert(m.skip(1) =~= m.drop_first());
        assert(m.take(0) =~= seq![]);
    } else {
        assert(text_lt(m[0].0, key));
        if m[0].0 == key {
            lemma_text_lt_irreflexive(key);
        }
        lemma_text_lt_asymmetric(m[0].0, key);
        let t = m.drop_first();
        assert forall|k: int| 0 <= k < i - 1 implies text_lt(#[trigger] t[k].0, key) by {
            assert(t[k] == m[k + 1]);
        }
        lemma_rec_add_at(t, key, v, i - 1);
        if i < m.len() && m[i].0 == key {
            assert(m.take(i) + seq![(key, collapse(Some(m[i].1), v))] + m.skip(i + 1)
                =~= seq![m[0]] + (t.take(i - 1) + seq![(key, collapse(Some(t[i - 1].1), v))] + t.skip(i)));
        } else {
            assert(m.take(i) + seq![(key, v)] + m.skip(i) =~= seq![m[0]] + (t.take(i - 1) + seq![(key, v)] + t.skip(i - 1)));
        }
    }
}

/// Binds `key` in a record whose keys ascend. A key bound before keeps its
/// earlier values: the binding becomes a list of them followed by `val`.
pub fn record_add(m: &mut Vec<(String, Value)>, key: String, val: Value)
    requires
        keys_ascending(record_view(old(m)@)),
    ensures
        keys_ascending(record_view(final(m)@)),
        record_view(final(m)@) == rec_add(record_view(old(m)@), key@, val@),
        forall|k: Seq<char>| #[trigger] record_get(record_view(final(m)@), k) == if k == key@ {
            Some(collapse(record_get(record_view(old(m)@), k), val@))
        } else {
            record_get(record_view(old(m)@), k)
        },
{
    let ghost om = old(m)@;
    let ghost ov = record_view(om);
    proof { lemma_record_view_as_new(om); }
    let mut i: usize = 0;
    while i < m.len() && compare_text(m[i].0.as_str(), key.as_str()) < 0
        invariant
            m@ == om,
            ov == record_view(om),
            ov == Seq::new(om.len(), |i: int| (om[i].0@, value_view(om[i].1))),
            i <= om.len(),
            forall|k: int| 0 <= k < i ==> text_lt(#[trigger] om[k].0@, key@),
        decreases om.len() - i,
    {
        i = i + 1;
    }
    let found = i < m.len() && compare_text(m[i].0.as_str(), key.as_str()) == 0;
    proof {
        if i < om.len() && !found {
            lemma_text_lt_total(om[i as int].0@, key@);
        }
    }
    let ghost nv_elem: Tree;
    if found {
        let (k0, v0) = m.remove(i);
        let merged = match v0 {
            Value::Array(mut xs) => {
                let ghost xs0 = xs@;
                proof { lemma_list_view_as_new(xs0); }
                xs.push(val);
                proof { lemma_list_view_as_new(xs@); }
                assert(list_view(xs@) =~= list_view(xs0).push(value_view(val)));
                Value::Array(xs)
            },
            other => {
                let v = vec![other, val];
                proof { lemma_list_view_as_new(v@); }
                assert(list_view(v@) =~= seq![value_view(v@[0]), value_view(v@[1])]);
                Value::Array(v)
            },
        };
        proof { nv_elem = value_view(merged); }
        m.insert(i, (k0, merged));
    } else {
        proof { nv_elem = value_view(val); }
        m.insert(i, (key, val));
    }
    proof {
        let nm = m@;
        lemma_record_view_as_new(nm);
        let nv = record_view(nm);
        lemma_rec_add_at(ov, key@, val@, i as int);
        if found {
            assert(nv =~= ov.take(i as int) + seq![(key@, collapse(Some(ov[i as int].1), val@))] + ov.skip(i + 1));
        } else {
            assert(nv =~= ov.take(i as int) + seq![(key@, val@)] + ov.skip(i as int));
        }
        assert(nv.len() == om.len() + (if found { 0int } else { 1int }));
        assert(nv[i as int] == (key@, nv_elem));
        assert forall|p: int| 0 <= p < i implies #[trigger] nv[p] == ov[p] by {}
        if found {
            assert forall|p: int| i < p < nv.len() implies #[trigger] nv[p] == ov[p] by {}
        } else {
            assert forall|p: int| i < p < nv.len() implies #[trigger] nv[p] == ov[p - 1] by {}
        }
        assert forall|a: int, b: int| 0 <= a < b < nv.len() implies text_lt(nv[a].0, nv[b].0) by {
            if !found && i < om.len() {
                if a < i && b > i {
                    if b > i + 1 {
                        assert(text_lt(ov[i as int].0, ov[b - 1].0));
                        lemma_text_lt_transitive(key@, ov[i as int].0, nv[b].0);
                    }
                    lemma_text_lt_transitive(nv[a].0, key@, nv[b].0);
                }
            }
            if found && a < i && b > i {
                assert(text_lt(ov[i as int].0, ov[b].0));
                lemma_text_lt_transitive(nv[a].0, key@, nv[b].0);
            }
            if a == i as int && b > i + 1 && !found {
                assert(text_lt(ov[i as int].0, ov[b - 1].0));
                lemma_text_lt_transitive(key@, ov[i as int].0, nv[b].0);
            }
            if a == i as int && b > i && found {
                assert(text_lt(ov[i as int].0, ov[b].0));
            }
        }
        assert forall|k: Seq<char>| #[trigger] record_get(nv, k) == if k == key@ {
            Some(collapse(record_get(ov, k), val@))
        } else {
            record_get(ov, k)
        } by {
            lemma_record_get_exact(nv, k);
            lemma_record_get_exact(ov, k);
            if k == key@ {
                lemma_record_get_found(nv, i as int);
                if found {
                    lemma_record_get_found(ov, i as int);
                } else {
                    assert forall|j: int| 0 <= j < ov.len() implies ov[j].0 != k by {
                        if j < i {
                            lemma_text_lt_irreflexive(k);
                        } else if j > i {
                            lemma_text_lt_transitive(k, ov[i as int].0, ov[j].0);
                            lemma_text_lt_irreflexive(k);
                        } else {
                        }
                    }
                    lemma_record_get_absent(ov, k);
                }
            } else {
                if exists|j: int| 0 <= j < ov.len() && ov[j].0 == k {
                    let j = choose|j: int| 0 <= j < ov.len() && ov[j].0 == k;
                    lemma_record_get_found(ov, j);
                    if found || j < i {
                        lemma_record_get_found(nv, j);
                    } else {
                        assert(nv[j + 1] == ov[j]);
                        lemma_record_get_found(nv, j + 1);
                    }
                } else {
                    assert forall|j: int| 0 <= j < nv.len() implies nv[j].0 != k by {
                        if j < i {
                            assert(nv[j] == ov[j]);
                        } else if j > i {
                            if found {
                                assert(nv[j] == ov[j]);
                            } else {
                                assert(nv[j] == ov[j - 1]);
                            }
                        }
                    }
                    lemma_record_get_absent(nv, k);
                }
            }
        }
    }
}

/// A copy of a text.
pub fn copy_text(s: &String) -> (r: String)
    ensures
        r@ == s@,
{
    s.clone()
}

impl Value {
    /// A deep copy.
    pub fn duplicate(&self) -> (r: Value)
        ensures
            r@ == self@,
        decreases self,
    {
        match self {
            Value::Null => Value::Null,
            Value::Object(m) => {
                let mut out: Vec<(String, Value)> = Vec::new();
                let mut i: usize = 0;
                while i < m.len()
                    invariant
                        i <= m@.len(),
                        *self == Value::Object(*m),
                        record_view(out@) == record_view(m@.take(i as int)),
                    decreases m@.len() - i,
                {
                    proof {
                        assert(decreases_to!(*self => self->Object_0));
                        assert(decreases_to!(self->Object_0 => self->Object_0@));
                        assert(decreases_to!(self->Object_0@ => self->Object_0@[i as int]));
                        assert(decreases_to!(self->Object_0@[i as int] => self->Object_0@[i as int].1));
                    }
                    let k = copy_text(&m[i].0);
                    let v = m[i].1.duplicate();
                    let ghost before = out@;
                    out.push((k, v));
                    assert(out@.drop_last() == before);
                    assert(m@.take(i + 1).drop_last() == m@.take(i as int));
                    i = i + 1;
                }
                assert(m@.take(m@.len() as int) == m@);
                Value::Object(out)
            },
            Value::Array(a) => {
                let mut out: Vec<Value> = Vec::new();
                let mut i: usize = 0;
                while i < a.len()
                    invariant
                        i <= a@.len(),
                        *self == Value::Array(*a),
                        list_view(out@) == list_view(a@.take(i as int)),
                    decreases a@.len() - i,
                {
                    proof {
                        assert(decreases_to!(*self => self->Array_0));
                        assert(decreases_to!(self->Array_0 => self->Array_0@));
                        assert(decreases_to!(self->Array_0@ => self->Array_0@[i as int]));
                    }
                    let v = a[i].duplicate();
                    let ghost before = out@;
                    out.push(v);
                    assert(out@.drop_last() == before);
                    assert(a@.take(i + 1).drop_last() == a@.take(i as int));
                    i = i + 1;
                }
                assert(a@.take(a@.len() as int) == a@);
                Value::Array(out)
            },
            Value::Bool(b) => Value::Bool(*b),
            Value::String(s) => Value::String(copy_text(s)),
            Value::Int(i) => Value::Int(*i),
            Value::Float(s) => Value::Float(copy_text(s)),
            Value::Unsigned(u) => Value::Unsigned(*u),
        }
    }

    /// Whether two values denote the same tree.
    pub fn equals(&self, other: &Value) -> (r: bool)
        ensures
            r == (self@ == other@),
        decreases self,
    {
        match (self, other) {
            (Value::Null, Value::Null) => true,
            (Value::Bool(x), Value::Bool(y)) => *x == *y,
            (Value::String(x), Value::String(y)) => crate::parse::is_word(x.as_str(), y.as_str()),
            (Value::Float(x), Value::Float(y)) => crate::parse::is_word(x.as_str(), y.as_str()),
            (Value::Int(x), Value::Int(y)) => *x == *y,
            (Value::Unsigned(x), Value::Unsigned(y)) => *x == *y,
            (Value::Array(xs), Value::Array(ys)) => {
                proof {
                    lemma_list_view_as_new(xs@);
                    lemma_list_view_as_new(ys@);
                }
                if xs.len() != ys.len() {
                    assert(list_view(xs@).len() != list_view(ys@).len());
                    return false;
                }
                let mut i: usize = 0;
                while i < xs.len()
                    invariant
                        *self == Value::Array(*xs),
                        *other == Value::Array(*ys),
                        xs@.len() == ys@.len(),
                        i <= xs@.len(),
                        list_view(xs@) == Seq::new(xs@.len(), |k: int| value_view(xs@[k])),
                        list_view(ys@) == Seq::new(ys@.len(), |k: int| value_view(ys@[k])),
                        forall|k: int| 0 <= k < i ==> value_view(xs@[k]) == value_view(ys@[k]),
                    decreases xs@.len() - i,
                {
                    proof {
                        assert(decreases_to!(*self => self->Array_0));
                        assert(decreases_to!(self->Array_0 => self->Array_0@));
                        assert(decreases_to!(self->Array_0@ => self->Array_0@[i as int]));
                    }
                    if !xs[i].equals(&ys[i]) {
                        assert(list_view(xs@)[i as int] != list_view(ys@)[i as int]);
                        return false;
                    }
                    i = i + 1;
                }
                assert(list_view(xs@) =~= list_view(ys@));
                true
            },
            (Value::Object(ms), Value::Object(ns)) => {
                proof {
                    lemma_record_view_as_new(ms@);
                    lemma_record_view_as_new(ns@);
                }
                if ms.len() != ns.len() {
                    assert(record_view(ms@).len() != record_view(ns@).len());
                    return false;
                }
                let mut i: usize = 0;
                while i < ms.len()
                    invariant
                        *self == Value::Object(*ms),
                        *other == Value::Object(*ns),
                        ms@.len() == ns@.len(),
                        i <= ms@.len(),
                        record_view(ms@) == Seq::new(ms@.len(), |k: int| (ms@[k].0@, value_view(ms@[k].1))),
                        record_view(ns@) == Seq::new(ns@.len(), |k: int| (ns@[k].0@, value_view(ns@[k].1))),
                        forall|k: int| 0 <= k < i ==> (ms@[k].0@, value_view(ms@[k].1)) == (ns@[k].0@, value_view(ns@[k].1)),
                    decreases ms@.len() - i,
                {
                    proof {
                        assert(decreases_to!(*self => self->Object_0));
                        assert(decreases_to!(self->Object_0 => self->Object_0@));
                        assert(decreases_to!(self->Object_0@ => self->Object_0@[i as int]));
                        assert(decreases_to!(self->Object_0@[i as int] => self->Object_0@[i as int].1));
                    }
                    if !crate::parse::is_word(ms[i].0.as_str(), ns[i].0.as_str()) || !ms[i].1.equals(&ns[i].1) {
                        assert(record_view(ms@)[i as int] != record_view(ns@)[i as int]);
                        return false;
                    }
                    i = i + 1;
                }
                assert(record_view(ms@) =~= record_view(ns@));
                true
            },
            _ => false,
        }
    }

    /// Whether the value is a leaf: neither an array nor an object.
    pub fn is_primitive(&self) -> (r: bool)
        ensures
            r == is_leaf(self@),
    {
        match self {
            Value::Array(_) | Value::Object(_) => false,
            _ => true,
        }
    }
}

} // verus!
