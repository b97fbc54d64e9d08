//! The tagged-union `Value` model: the exchange format between the mapping
//! layer and storage, with the explicit conversions at the storage boundary.

use vstd::prelude::*;

verus! {

/// The logical type of a column's values.
#[derive(Clone, Copy, Debug, PartialEq, Eq, Structural)]
pub enum FieldType {
    Text,
    Integer,
    BigInt,
    Numeric,
    Boolean,
}

/// Any storable scalar. Exactly one variant is active. `Real` carries the
/// IEEE 754 bit pattern of a 64-bit float: this crate is float-free, and the
/// storage boundary converts with `f64::to_bits` / `f64::from_bits`.
#[derive(Clone, Debug)]
pub enum Value {
    Null,
    Integer(i64),
    Real(u64),
    Text(String),
    Blob(Vec<u8>),
    Boolean(bool),
}

/// The mathematical view of a `Value`.
pub enum ValueV {
    Null,
    Integer(i64),
    Real(u64),
    Text(Seq<char>),
    Blob(Seq<u8>),
    Boolean(bool),
}

impl View for Value {
    type V = ValueV;

    open spec fn view(&self) -> ValueV {
        match self {
            Value::Null => ValueV::Null,
            Value::Integer(i) => ValueV::Integer(*i),
            Value::Real(b) => ValueV::Real(*b),
            Value::Text(s) => ValueV::Text(s@),
            Value::Blob(b) => ValueV::Blob(b@),
            Value::Boolean(b) => ValueV::Boolean(*b),
        }
    }
}

impl DeepView for Value {
    type V = ValueV;

    open spec fn deep_view(&self) -> ValueV {
        self.view()
    }
}

impl PartialEq for Value {
    fn eq(&self, other: &Value) -> (r: bool)
        ensures
            r == (self@ == other@),
    {
        match (self, other) {
            (Value::Null, Value::Null) => true,
            (Value::Integer(a), Value::Integer(b)) => *a == *b,
            (Value::Real(a), Value::Real(b)) => *a == *b,
            (Value::Text(a), Value::Text(b)) => *a == *b,
            (Value::Blob(a), Value::Blob(b)) => bytes_eq(a, b),
            (Value::Boolean(a), Value::Boolean(b)) => *a == *b,
            _ => false,
        }
    }
}

/// Element-by-element equality of two byte vectors.
fn bytes_eq(a: &Vec<u8>, b: &Vec<u8>) -> (r: bool)
    ensures
        r == (a@ == b@),
{
    if a.len() != b.len() {
        return false;
    }
    let mut i: usize = 0;
    while i < a.len()
        invariant
            i <= a@.len(),
            a@.len() == b@.len(),
            forall|j: int| 0 <= j < i ==> a@[j] == b@[j],
        decreases a@.len() - i,
    {
        if a[i] != b[i] {
            return false;
        }
        i = i + 1;
    }
    proof {
        assert(a@ =~= b@);
    }
    true
}

impl vstd::std_specs::cmp::PartialEqSpecImpl for Value {
    open spec fn obeys_eq_spec() -> bool {
        true
    }

    open spec fn eq_spec(&self, other: &Value) -> bool {
        self@ == other@
    }
}

impl Value {
    /// A fresh copy of this value.
    pub fn dup(&self) -> (r: Value)
        ensures
            r@ == self@,
    {
        match self {
            Value::Null => Value::Null,
            Value::Integer(i) => Value::Integer(*i),
            Value::Real(b) => Value::Real(*b),
            Value::Text(s) => Value::Text(s.clone()),
            Value::Blob(b) => Value::Blob(clone_bytes(b)),
            Value::Boolean(b) => Value::Boolean(*b),
        }
    }
}

/// Copy a byte vector element by element.
fn clone_bytes(b: &Vec<u8>) -> (r: Vec<u8>)
    ensures
        r@ == b@,
{
    let mut out: Vec<u8> = Vec::new();
    let mut i: usize = 0;
    while i < b.len()
        invariant
            i <= b@.len(),
            out@ == b@.take(i as int),
        decreases b@.len() - i,
    {
        out.push(b[i]);
        proof {
            assert(out@ =~= b@.take(i + 1));
        }
        i = i + 1;
    }
    proof {
        assert(b@.take(b@.len() as int) =~= b@);
    }
    out
}

/// What the storage layer persists for `v`: Boolean is coerced to Integer
/// 0/1 on write; every other variant is stored as itself.
pub open spec fn to_storage_spec(v: ValueV) -> ValueV {
    match v {
        ValueV::Boolean(b) => ValueV::Integer(
            if b {
                1
            } else {
                0
            },
        ),
        other => other,
    }
}

/// Coerce a value for writing: the storage layer only persists
/// Integer/Real/Text/Blob/Null.
pub fn to_storage(v: &Value) -> (r: Value)
    ensures
        r@ == to_storage_spec(v@),
{
    match v {
        Value::Boolean(b) => Value::Integer(
            if *b {
                1
            } else {
                0
            },
        ),
        other => other.dup(),
    }
}

/// Reinterpretation of a stored value under column-type knowledge on read:
/// an Integer read from a Boolean column becomes the Boolean it encodes
/// (any non-zero integer reads as true).
pub open spec fn from_storage_spec(v: ValueV, t: FieldType) -> ValueV {
    match v {
        ValueV::Integer(i) => {
            if t == FieldType::Boolean {
                ValueV::Boolean(i != 0)
            } else {
                ValueV::Integer(i)
            }
        },
        other => other,
    }
}

/// Reinterpret a value read from storage using the column's logical type.
pub fn from_storage(v: &Value, t: FieldType) -> (r: Value)
    ensures
        r@ == from_storage_spec(v@, t),
{
    match v {
        Value::Integer(i) => {
            if t == FieldType::Boolean {
                Value::Boolean(*i != 0)
            } else {
                Value::Integer(*i)
            }
        },
        other => other.dup(),
    }
}

/// Writing a value and reading it back under its column's logical type
/// preserves it: the boundary coercion of Boolean through Integer 0/1 is
/// lossless for values that belong to their column.
pub proof fn lemma_storage_roundtrip(v: ValueV, t: FieldType)
    requires
        v is Boolean ==> t == FieldType::Boolean,
        t == FieldType::Boolean ==> v is Boolean || v is Null,
    ensures
        from_storage_spec(to_storage_spec(v), t) == v,
{
}

} // verus!
