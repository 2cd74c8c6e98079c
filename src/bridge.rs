//! The typed-data bridge: label types that turn into a `Value` and back.
use vstd::prelude::*;
use crate::error::SerializationError;
use crate::value::{Value, Tree, copy_text, list_view, lemma_list_view_as_new};

verus! {

/// A label type that encodes into one `Value` describing its whole shape and
/// decodes back from one.
pub trait TypedValue: Sized {
    /// The tree that `encode` gives.
    spec fn encoded(&self) -> Tree;

    /// Whether a tree has the shape that `decode` accepts.
    spec fn decodable(t: Tree) -> bool;

    /// Whether `x` is what `decode` gives for `t`.
    spec fn represents(t: Tree, x: Self) -> bool;

    /// The message that `decode` fails with on `t`.
    spec fn decode_error(t: Tree) -> Seq<char>;

    fn encode(&self) -> (r: Value)
        ensures
            r@ == self.encoded(),
    ;

    fn decode(v: &Value) -> (r: Result<Self, SerializationError>)
        ensures
            r is Ok <==> Self::decodable(v@),
            r matches Ok(x) ==> Self::represents(v@, x),
            r matches Err(SerializationError::Message(m)) ==> m@ == Self::decode_error(v@),
    ;
}

impl TypedValue for bool {
    open spec fn encoded(&self) -> Tree {
        Tree::Bool(*self)
    }

    open spec fn decodable(t: Tree) -> bool {
        t is Bool
    }

    open spec fn represents(t: Tree, x: bool) -> bool {
        t == Tree::Bool(x)
    }

    open spec fn decode_error(t: Tree) -> Seq<char> {
        "Not bool type"@
    }

    fn encode(&self) -> (r: Value) {
        Value::Bool(*self)
    }

    fn decode(v: &Value) -> (r: Result<bool, SerializationError>) {
        match v {
            Value::Bool(b) => Ok(*b),
            _ => Err(SerializationError::Message("Not bool type".to_owned())),
        }
    }
}

impl TypedValue for i32 {
    open spec fn encoded(&self) -> Tree {
        Tree::Int(*self as int)
    }

    open spec fn decodable(t: Tree) -> bool {
        match t {
            Tree::Int(i) => i32::MIN <= i <= i32::MAX,
            Tree::Unsigned(u) => u <= i32::MAX,
            _ => false,
        }
    }

    open spec fn represents(t: Tree, x: i32) -> bool {
        t == Tree::Int(x as int) || t == Tree::Unsigned(x as int)
    }

    open spec fn decode_error(t: Tree) -> Seq<char> {
        if t is Int || t is Unsigned { "Int too large"@ } else { "Not int type"@ }
    }

    fn encode(&self) -> (r: Value) {
        Value::Int(*self as i64)
    }

    fn decode(v: &Value) -> (r: Result<i32, SerializationError>) {
        match v {
            Value::Int(i) => if i32::MIN as i64 <= *i && *i <= i32::MAX as i64 {
                Ok(*i as i32)
            } else {
                Err(SerializationError::Message("Int too large".to_owned()))
            },
            Value::Unsigned(u) => if *u <= i32::MAX as u64 {
                Ok(*u as i32)
            } else {
                Err(SerializationError::Message("Int too large".to_owned()))
            },
            _ => Err(SerializationError::Message("Not int type".to_owned())),
        }
    }
}

impl TypedValue for i64 {
    open spec fn encoded(&self) -> Tree {
        Tree::Int(*self as int)
    }

    open spec fn decodable(t: Tree) -> bool {
        match t {
            Tree::Int(_) => true,
            Tree::Unsigned(u) => u <= i64::MAX,
            _ => false,
        }
    }

    open spec fn represents(t: Tree, x: i64) -> bool {
        t == Tree::Int(x as int) || t == Tree::Unsigned(x as int)
    }

    open spec fn decode_error(t: Tree) -> Seq<char> {
        if t is Unsigned { "Int too large"@ } else { "Not int type"@ }
    }

    fn encode(&self) -> (r: Value) {
        Value::Int(*self)
    }

    fn decode(v: &Value) -> (r: Result<i64, SerializationError>) {
        match v {
            Value::Int(i) => Ok(*i),
            Value::Unsigned(u) => if *u <= i64::MAX as u64 {
                Ok(*u as i64)
            } else {
                Err(SerializationError::Message("Int too large".to_owned()))
            },
            _ => Err(SerializationError::Message("Not int type".to_owned())),
        }
    }
}

impl TypedValue for u32 {
    open spec fn encoded(&self) -> Tree {
        Tree::Unsigned(*self as int)
    }

    open spec fn decodable(t: Tree) -> bool {
        match t {
            Tree::Unsigned(u) => u <= u32::MAX,
            Tree::Int(i) => 0 <= i <= u32::MAX,
            _ => false,
        }
    }

    open spec fn represents(t: Tree, x: u32) -> bool {
        t == Tree::Unsigned(x as int) || t == Tree::Int(x as int)
    }

    open spec fn decode_error(t: Tree) -> Seq<char> {
        match t {
            Tree::Unsigned(_) => "Unsigned int too large"@,
            Tree::Int(_) => "Unsigned int out of range"@,
            _ => "Not unsigned int type"@,
        }
    }

    fn encode(&self) -> (r: Value) {
        Value::Unsigned(*self as u64)
    }

    fn decode(v: &Value) -> (r: Result<u32, SerializationError>) {
        match v {
            Value::Unsigned(u) => if *u <= u32::MAX as u64 {
                Ok(*u as u32)
            } else {
                Err(SerializationError::Message("Unsigned int too large".to_owned()))
            },
            Value::Int(i) => if 0 <= *i && *i <= u32::MAX as i64 {
                Ok(*i as u32)
            } else {
                Err(SerializationError::Message("Unsigned int out of range".to_owned()))
            },
            _ => Err(SerializationError::Message("Not unsigned int type".to_owned())),
        }
    }
}

impl TypedValue for u64 {
    open spec fn encoded(&self) -> Tree {
        Tree::Unsigned(*self as int)
    }

    open spec fn decodable(t: Tree) -> bool {
        match t {
            Tree::Unsigned(_) => true,
            Tree::Int(i) => 0 <= i,
            _ => false,
        }
    }

    open spec fn represents(t: Tree, x: u64) -> bool {
        t == Tree::Unsigned(x as int) || t == Tree::Int(x as int)
    }

    open spec fn decode_error(t: Tree) -> Seq<char> {
        if t is Int { "Unsigned int out of range"@ } else { "Not unsigned int type"@ }
    }

    fn encode(&self) -> (r: Value) {
        Value::Unsigned(*self)
    }

    fn decode(v: &Value) -> (r: Result<u64, SerializationError>) {
        match v {
            Value::Unsigned(u) => Ok(*u),
            Value::Int(i) => if 0 <= *i {
                Ok(*i as u64)
            } else {
                Err(SerializationError::Message("Unsigned int out of range".to_owned()))
            },
            _ => Err(SerializationError::Message("Not unsigned int type".to_owned())),
        }
    }
}

impl TypedValue for String {
    open spec fn encoded(&self) -> Tree {
        Tree::Text(self@)
    }

    open spec fn decodable(t: Tree) -> bool {
        t is Text
    }

    open spec fn represents(t: Tree, x: String) -> bool {
        t == Tree::Text(x@)
    }

    open spec fn decode_error(t: Tree) -> Seq<char> {
        "Not string type"@
    }

    fn encode(&self) -> (r: Value) {
        Value::String(copy_text(self))
    }

    fn decode(v: &Value) -> (r: Result<String, SerializationError>) {
        match v {
            Value::String(s) => Ok(copy_text(s)),
            _ => Err(SerializationError::Message("Not string type".to_owned())),
        }
    }
}

impl TypedValue for Value {
    open spec fn encoded(&self) -> Tree {
        self@
    }

    open spec fn decodable(t: Tree) -> bool {
        true
    }

    open spec fn represents(t: Tree, x: Value) -> bool {
        x@ == t
    }

    open spec fn decode_error(t: Tree) -> Seq<char> {
        seq![]
    }

    fn encode(&self) -> (r: Value) {
        self.duplicate()
    }

    fn decode(v: &Value) -> (r: Result<Value, SerializationError>) {
        Ok(v.duplicate())
    }
}

impl<T: TypedValue> TypedValue for Option<T> {
    open spec fn encoded(&self) -> Tree {
        match self {
            Some(x) => x.encoded(),
            None => Tree::Null,
        }
    }

    open spec fn decodable(t: Tree) -> bool {
        t is Null || T::decodable(t)
    }

    open spec fn represents(t: Tree, x: Option<T>) -> bool {
        match x {
            None => t is Null,
            Some(y) => !(t is Null) && T::represents(t, y),
        }
    }

    open spec fn decode_error(t: Tree) -> Seq<char> {
        T::decode_error(t)
    }

    fn encode(&self) -> (r: Value) {
        match self {
            Some(x) => x.encode(),
            None => Value::Null,
        }
    }

    fn decode(v: &Value) -> (r: Result<Option<T>, SerializationError>) {
        match v {
            Value::Null => Ok(None),
            _ => match T::decode(v) {
                Ok(x) => Ok(Some(x)),
                Err(e) => Err(e),
            },
        }
    }
}

/// The message of the first item that `T` does not decode.
pub open spec fn first_decode_error<T: TypedValue>(xs: Seq<Tree>) -> Seq<char>
    decreases xs.len(),
{
    if xs.len() == 0 {
        seq![]
    } else if !T::decodable(xs[0]) {
        T::decode_error(xs[0])
    } else {
        first_decode_error::<T>(xs.drop_first())
    }
}

proof fn lemma_first_decode_error<T: TypedValue>(xs: Seq<Tree>, i: int)
    requires
        0 <= i < xs.len(),
        forall|k: int| 0 <= k < i ==> T::decodable(#[trigger] xs[k]),
        !T::decodable(xs[i]),
    ensures
        first_decode_error::<T>(xs) == T::decode_error(xs[i]),
    decreases i,
{
    if i > 0 {
        assert(T::decodable(xs[0]));
        lemma_first_decode_error::<T>(xs.drop_first(), i - 1);
    }
}

impl<T: TypedValue> TypedValue for Vec<T> {
    open spec fn encoded(&self) -> Tree {
        Tree::List(Seq::new(self@.len(), |i: int| self@[i].encoded()))
    }

    open spec fn decodable(t: Tree) -> bool {
        t matches Tree::List(xs) && forall|i: int| 0 <= i < xs.len() ==> T::decodable(#[trigger] xs[i])
    }

    open spec fn represents(t: Tree, x: Vec<T>) -> bool {
        t matches Tree::List(xs) && xs.len() == x@.len() && forall|i: int| 0 <= i < xs.len() ==> T::represents(#[trigger] xs[i], x@[i])
    }

    open spec fn decode_error(t: Tree) -> Seq<char> {
        match t {
            Tree::List(xs) => first_decode_error::<T>(xs),
            _ => "Not sequence type"@,
        }
    }

    fn encode(&self) -> (r: Value) {
        let mut out: Vec<Value> = Vec::new();
        let mut i: usize = 0;
        while i < self.len()
            invariant
                i <= self@.len(),
                out@.len() == i,
                forall|k: int| 0 <= k < i ==> (#[trigger] out@[k])@ == self@[k].encoded(),
            decreases self@.len() - i,
        {
            out.push(self[i].encode());
            i = i + 1;
        }
        proof { lemma_list_view_as_new(out@); }
        assert(list_view(out@) =~= Seq::new(self@.len(), |i: int| self@[i].encoded()));
        Value::Array(out)
    }

    fn decode(v: &Value) -> (r: Result<Vec<T>, SerializationError>) {
        match v {
            Value::Array(xs) => {
                proof { lemma_list_view_as_new(xs@); }
                let mut out: Vec<T> = Vec::new();
                let mut i: usize = 0;
                while i < xs.len()
                    invariant
                        *v == Value::Array(*xs),
                        list_view(xs@) == Seq::new(xs@.len(), |k: int| crate::value::value_view(xs@[k])),
                        i <= xs@.len(),
                        out@.len() == i,
                        forall|k: int| 0 <= k < i ==> T::decodable(#[trigger] list_view(xs@)[k]),
                        forall|k: int| 0 <= k < i ==> T::represents(#[trigger] list_view(xs@)[k], out@[k]),
                    decreases xs@.len() - i,
                {
                    match T::decode(&xs[i]) {
                        Ok(x) => {
                            out.push(x);
                        },
                        Err(e) => {
                            assert(!T::decodable(list_view(xs@)[i as int]));
                            assert(v@ == Tree::List(list_view(xs@)));
                            assert(v@->List_0 == list_view(xs@));
                            assert(!T::decodable(v@->List_0[i as int]));
                            assert(!<Vec<T> as TypedValue>::decodable(v@));
                            proof { lemma_first_decode_error::<T>(list_view(xs@), i as int); }
                            return Err(e);
                        },
                    }
                    i = i + 1;
                }
                assert(v@ == Tree::List(list_view(xs@)));
                Ok(out)
            },
            _ => Err(SerializationError::Message("Not sequence type".to_owned())),
        }
    }
}

/// A variant of a tagged type: a one-entry record from the variant's name to
/// its payload, or the bare name for a variant without payload.
pub open spec fn variant_tree(name: Seq<char>, payload: Option<Tree>) -> Tree {
    match payload {
        Some(p) => Tree::Record(seq![(name, p)]),
        None => Tree::Text(name),
    }
}

/// Encodes a variant of a tagged type.
pub fn encode_variant(name: &str, payload: Option<Value>) -> (r: Value)
    ensures
        r@ == variant_tree(name@, match payload { Some(p) => Some(p@), None => None }),
{
    match payload {
        Some(p) => {
            let ghost t = p@;
            let mut m: Vec<(String, Value)> = Vec::new();
            m.push((name.to_owned(), p));
            proof { crate::value::lemma_record_view_as_new(m@); }
            assert(crate::value::record_view(m@) =~= seq![(name@, t)]);
            Value::Object(m)
        },
        None => Value::String(name.to_owned()),
    }
}

/// Decodes a variant of a tagged type into its name and payload.
pub fn decode_variant(v: &Value) -> (r: Result<(String, Option<Value>), SerializationError>)
    ensures
        r is Ok <==> (v@ is Text || (v@ matches Tree::Record(m) && m.len() == 1)),
        r matches Err(SerializationError::Message(m)) ==> m@ == "Invalid enum"@,
        r matches Ok((n, p)) ==> v@ == variant_tree(n@, match p { Some(x) => Some(x@), None => None }),
{
    match v {
        Value::String(s) => Ok((s.clone(), None)),
        Value::Object(m) => {
            proof { crate::value::lemma_record_view_as_new(m@); }
            if m.len() == 1 {
                let n = m[0].0.clone();
                let p = m[0].1.duplicate();
                assert(crate::value::record_view(m@) =~= seq![(n@, p@)]);
                Ok((n, Some(p)))
            } else {
                Err(SerializationError::Message("Invalid enum".to_owned()))
            }
        },
        _ => Err(SerializationError::Message("Invalid enum".to_owned())),
    }
}

/// Encodes a 128-bit signed integer; one outside the 64-bit range has no
/// value and fails with "unsupported width".
pub fn encode_i128(x: i128) -> (r: Result<Value, SerializationError>)
    ensures
        r is Ok <==> i64::MIN <= x <= i64::MAX,
        r matches Ok(v) ==> v@ == Tree::Int(x as int),
        r matches Err(SerializationError::Message(m)) ==> m@ == "unsupported width"@,
{
    if i64::MIN as i128 <= x && x <= i64::MAX as i128 {
        Ok(Value::Int(x as i64))
    } else {
        Err(SerializationError::Message("unsupported width".to_owned()))
    }
}

/// Encodes a 128-bit unsigned integer; one above the 64-bit range has no
/// value and fails with "unsupported width".
pub fn encode_u128(x: u128) -> (r: Result<Value, SerializationError>)
    ensures
        r is Ok <==> x <= u64::MAX,
        r matches Ok(v) ==> v@ == Tree::Unsigned(x as int),
        r matches Err(SerializationError::Message(m)) ==> m@ == "unsupported width"@,
{
    if x <= u64::MAX as u128 {
        Ok(Value::Unsigned(x as u64))
    } else {
        Err(SerializationError::Message("unsupported width".to_owned()))
    }
}

/// Encodes a label.
pub fn serialize<V: TypedValue>(data: &V) -> (r: Value)
    ensures
        r@ == data.encoded(),
{
    data.encode()
}

/// Decodes a label.
pub fn from_value<V: TypedValue>(value: &Value) -> (r: Result<V, SerializationError>)
    ensures
        r is Ok <==> V::decodable(value@),
        r matches Ok(x) ==> V::represents(value@, x),
        r matches Err(SerializationError::Message(m)) ==> m@ == V::decode_error(value@),
{
    V::decode(value)
}

} // verus!
