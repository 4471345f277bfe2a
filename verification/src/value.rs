//! The generic data model: runtime values, their mathematical models, and the
//! shapes a schema can declare.

use vstd::prelude::*;

verus! {

/// Mathematical model of a codec value.
#[verifier::ext_equal]
pub enum Val {
    Bool(bool),
    U8(u8),
    U16(u16),
    U32(u32),
    U64(u64),
    U128(u128),
    I8(i8),
    I16(i16),
    I32(i32),
    I64(i64),
    I128(i128),
    Char(char),
    Str(Seq<char>),
    Bytes(Seq<u8>),
    Unit,
    Absent,
    Present(Box<Val>),
    Sequence(Seq<Val>),
    Tuple(Seq<Val>),
    Record(Seq<Val>),
    Union(u64, Box<Val>),
    Dict(Seq<(Val, Val)>),
}

/// A codec value: one node of the generic data model.
///
/// Scalars carry their payload; composites own their children.  A map value
/// is a list of key/value entries in caller-determined order (the format
/// imposes no ordering on keys).
#[derive(Debug, PartialEq)]
pub enum Value {
    Bool(bool),
    U8(u8),
    U16(u16),
    U32(u32),
    U64(u64),
    U128(u128),
    I8(i8),
    I16(i16),
    I32(i32),
    I64(i64),
    I128(i128),
    Char(char),
    Str(String),
    Bytes(Vec<u8>),
    Unit,
    Absent,
    Present(Box<Value>),
    Sequence(Vec<Value>),
    Tuple(Vec<Value>),
    Record(Vec<Value>),
    Union(u64, Box<Value>),
    Dict(Vec<(Value, Value)>),
}

/// The structural category a schema declares for the next node.
///
/// A tuple or record lists the shape of each member in declaration order; a
/// union lists the payload shape of each variant, indexed by the variant's
/// declared position; a sequence or map gives the one shape its elements
/// (or keys and values) share.
#[derive(Debug)]
pub enum Shape {
    Bool,
    U8,
    U16,
    U32,
    U64,
    U128,
    I8,
    I16,
    I32,
    I64,
    I128,
    Char,
    Str,
    Bytes,
    Unit,
    Optional(Box<Shape>),
    Sequence(Box<Shape>),
    Tuple(Vec<Shape>),
    Record(Vec<Shape>),
    Union(Vec<Shape>),
    Dict(Box<Shape>, Box<Shape>),
}

/// The model of a runtime value.
pub open spec fn val_of(v: Value) -> Val
    decreases v, 0int,
{
    match v {
        Value::Bool(b) => Val::Bool(b),
        Value::U8(x) => Val::U8(x),
        Value::U16(x) => Val::U16(x),
        Value::U32(x) => Val::U32(x),
        Value::U64(x) => Val::U64(x),
        Value::U128(x) => Val::U128(x),
        Value::I8(x) => Val::I8(x),
        Value::I16(x) => Val::I16(x),
        Value::I32(x) => Val::I32(x),
        Value::I64(x) => Val::I64(x),
        Value::I128(x) => Val::I128(x),
        Value::Char(c) => Val::Char(c),
        Value::Str(s) => Val::Str(s@),
        Value::Bytes(b) => Val::Bytes(b@),
        Value::Unit => Val::Unit,
        Value::Absent => Val::Absent,
        Value::Present(p) => Val::Present(Box::new(val_of(*p))),
        Value::Sequence(es) => Val::Sequence(seq_val_of(es@, 0)),
        Value::Tuple(es) => Val::Tuple(seq_val_of(es@, 0)),
        Value::Record(es) => Val::Record(seq_val_of(es@, 0)),
        Value::Union(idx, p) => Val::Union(idx, Box::new(val_of(*p))),
        Value::Dict(ps) => Val::Dict(pairs_val_of(ps@, 0)),
    }
}

/// The models of the elements of `s` from index `i` on.
pub open spec fn seq_val_of(s: Seq<Value>, i: int) -> Seq<Val>
    decreases s, s.len() - i,
{
    if i < 0 || i >= s.len() {
        Seq::empty()
    } else {
        seq![val_of(s[i])] + seq_val_of(s, i + 1)
    }
}

/// The models of the entries of `s` from index `i` on.
pub open spec fn pairs_val_of(s: Seq<(Value, Value)>, i: int) -> Seq<(Val, Val)>
    decreases s, s.len() - i,
{
    if i < 0 || i >= s.len() {
        Seq::empty()
    } else {
        seq![(val_of(s[i].0), val_of(s[i].1))] + pairs_val_of(s, i + 1)
    }
}

impl View for Value {
    type V = Val;

    open spec fn view(&self) -> Val {
        val_of(*self)
    }
}

pub proof fn lemma_seq_val_of_len(s: Seq<Value>, i: int)
    requires
        0 <= i <= s.len(),
    ensures
        seq_val_of(s, i).len() == s.len() - i,
        forall|j: int| 0 <= j < s.len() - i ==> seq_val_of(s, i)[j] == val_of(s[i + j]),
    decreases s.len() - i,
{
    if i < s.len() {
        lemma_seq_val_of_len(s, i + 1);
    }
}

pub proof fn lemma_pairs_val_of_len(s: Seq<(Value, Value)>, i: int)
    requires
        0 <= i <= s.len(),
    ensures
        pairs_val_of(s, i).len() == s.len() - i,
        forall|j: int|
            0 <= j < s.len() - i ==> pairs_val_of(s, i)[j] == (
            val_of(s[i + j].0),
            val_of(s[i + j].1),
            ),
    decreases s.len() - i,
{
    if i < s.len() {
        lemma_pairs_val_of_len(s, i + 1);
    }
}

/// Appending one element appends its model.
pub proof fn lemma_seq_val_of_push(s: Seq<Value>, v: Value)
    ensures
        seq_val_of(s.push(v), 0) == seq_val_of(s, 0).push(val_of(v)),
{
    lemma_seq_val_of_len(s, 0);
    lemma_seq_val_of_len(s.push(v), 0);
    assert(seq_val_of(s.push(v), 0) =~= seq_val_of(s, 0).push(val_of(v)));
}

pub proof fn lemma_pairs_val_of_push(s: Seq<(Value, Value)>, k: Value, v: Value)
    ensures
        pairs_val_of(s.push((k, v)), 0) == pairs_val_of(s, 0).push((val_of(k), val_of(v))),
{
    lemma_pairs_val_of_len(s, 0);
    lemma_pairs_val_of_len(s.push((k, v)), 0);
    assert(pairs_val_of(s.push((k, v)), 0) =~= pairs_val_of(s, 0).push((val_of(k), val_of(v))));
}

/// True when the model value `v` has the declared shape `s`, and every count
/// it would put on the wire fits in an unsigned 64-bit varint, so that `v`
/// can be decoded back.
pub open spec fn shape_matches(v: Val, s: Shape) -> bool
    decreases s, 0int,
{
    match (v, s) {
        (Val::Bool(_), Shape::Bool) => true,
        (Val::U8(_), Shape::U8) => true,
        (Val::U16(_), Shape::U16) => true,
        (Val::U32(_), Shape::U32) => true,
        (Val::U64(_), Shape::U64) => true,
        (Val::U128(_), Shape::U128) => true,
        (Val::I8(_), Shape::I8) => true,
        (Val::I16(_), Shape::I16) => true,
        (Val::I32(_), Shape::I32) => true,
        (Val::I64(_), Shape::I64) => true,
        (Val::I128(_), Shape::I128) => true,
        (Val::Char(_), Shape::Char) => true,
        (Val::Str(cs), Shape::Str) => vstd::utf8::encode_utf8(cs).len() < 0x1_0000_0000_0000_0000,
        (Val::Bytes(bs), Shape::Bytes) => bs.len() < 0x1_0000_0000_0000_0000,
        (Val::Unit, Shape::Unit) => true,
        (Val::Absent, Shape::Optional(_)) => true,
        (Val::Present(p), Shape::Optional(inner)) => shape_matches(*p, *inner),
        (Val::Sequence(es), Shape::Sequence(inner)) => es.len() < 0x1_0000_0000_0000_0000
            && forall|i: int| 0 <= i < es.len() ==> shape_matches(#[trigger] es[i], *inner),
        (Val::Tuple(es), Shape::Tuple(ss)) => es.len() == ss@.len() && forall|i: int|
            0 <= i < es.len() ==> shape_matches(#[trigger] es[i], ss@[i]),
        (Val::Record(es), Shape::Record(ss)) => es.len() == ss@.len() && forall|i: int|
            0 <= i < es.len() ==> shape_matches(#[trigger] es[i], ss@[i]),
        (Val::Union(idx, p), Shape::Union(vs)) => idx < vs@.len() && shape_matches(
            *p,
            vs@[idx as int],
        ),
        (Val::Dict(ps), Shape::Dict(ks, vs)) => ps.len() < 0x1_0000_0000_0000_0000 && forall|
            i: int,
        |
            0 <= i < ps.len() ==> shape_matches(#[trigger] ps[i].0, *ks) && shape_matches(
                ps[i].1,
                *vs,
            ),
        _ => false,
    }
}

} // verus!
