//! The wire format, as mathematics.
//!
//! [`encoding`] gives the exact byte sequence a model value puts on the wire.
//! [`decoding`] is a total functional model of the decoder: for every byte
//! sequence and expected shape it yields either the decoded value with the
//! number of bytes consumed, or the failure kind the decoder reports.  The
//! executable encoder and decoder are verified against these two functions.

use vstd::prelude::*;

use crate::error::SerbfError;
use crate::fixed::{
    i128_of_rep, i16_of_rep, i32_of_rep, i64_of_rep, i8_of_rep, le_bytes, le_val, rep_i128,
    rep_i16, rep_i32, rep_i64, rep_i8,
};
use crate::value::{Shape, Val};
use crate::varint::{varint_bytes, varint_size, varint_terminated, varint_value};
use vstd::utf8::{decode_utf8, encode_utf8, valid_utf8};

verus! {

/// The encoding of the model value `v`: a pure function of the value alone.
/// No padding, alignment, or stream metadata is ever added.
pub open spec fn encoding(v: Val) -> Seq<u8>
    decreases v, 1int, 0int,
{
    match v {
        Val::Bool(b) => seq![if b { 1u8 } else { 0u8 }],
        Val::U8(x) => le_bytes(x as nat, 1),
        Val::U16(x) => le_bytes(x as nat, 2),
        Val::U32(x) => le_bytes(x as nat, 4),
        Val::U64(x) => le_bytes(x as nat, 8),
        Val::U128(x) => le_bytes(x as nat, 16),
        Val::I8(x) => le_bytes(rep_i8(x), 1),
        Val::I16(x) => le_bytes(rep_i16(x), 2),
        Val::I32(x) => le_bytes(rep_i32(x), 4),
        Val::I64(x) => le_bytes(rep_i64(x), 8),
        Val::I128(x) => le_bytes(rep_i128(x), 16),
        Val::Char(c) => varint_bytes(encode_utf8(seq![c]).len()) + encode_utf8(seq![c]),
        Val::Str(cs) => varint_bytes(encode_utf8(cs).len()) + encode_utf8(cs),
        Val::Bytes(bs) => varint_bytes(bs.len()) + bs,
        Val::Unit => Seq::empty(),
        Val::Absent => seq![0u8],
        Val::Present(p) => seq![1u8] + encoding(*p),
        Val::Sequence(es) => varint_bytes(es.len()) + encoding_list(es, 0),
        Val::Tuple(es) => encoding_list(es, 0),
        Val::Record(es) => encoding_list(es, 0),
        Val::Union(idx, p) => varint_bytes(idx as nat) + encoding(*p),
        Val::Dict(ps) => varint_bytes(ps.len()) + encoding_pairs(ps, 0),
    }
}

/// The concatenated encodings of the elements of `es` from index `i` on.
pub open spec fn encoding_list(es: Seq<Val>, i: int) -> Seq<u8>
    decreases es, 2int, es.len() - i,
{
    if i < 0 || i >= es.len() {
        Seq::empty()
    } else {
        encoding(es[i]) + encoding_list(es, i + 1)
    }
}

/// The concatenated key/value encodings of the entries of `ps` from index
/// `i` on: each key immediately followed by its value.
pub open spec fn encoding_pairs(ps: Seq<(Val, Val)>, i: int) -> Seq<u8>
    decreases ps, 2int, ps.len() - i,
{
    if i < 0 || i >= ps.len() {
        Seq::empty()
    } else {
        encoding(ps[i].0) + encoding(ps[i].1) + encoding_pairs(ps, i + 1)
    }
}

/// The functional model of one decode step: what value the shape-directed
/// decoder produces from the front of `bytes` when told to expect `s`, how
/// many bytes it consumes, and which failure it reports otherwise.
pub open spec fn decoding(bytes: Seq<u8>, s: Shape) -> Result<(Val, nat), SerbfError>
    decreases s, 1int, 0int,
{
    match s {
        Shape::Bool => {
            if bytes.len() < 1 {
                Err(SerbfError::Io)
            } else if bytes[0] == 0 {
                Ok((Val::Bool(false), 1))
            } else if bytes[0] == 1 {
                Ok((Val::Bool(true), 1))
            } else {
                Err(SerbfError::InvalidDiscriminant)
            }
        },
        Shape::U8 => {
            if bytes.len() < 1 {
                Err(SerbfError::Io)
            } else {
                Ok((Val::U8(le_val(bytes.take(1)) as u8), 1))
            }
        },
        Shape::U16 => {
            if bytes.len() < 2 {
                Err(SerbfError::Io)
            } else {
                Ok((Val::U16(le_val(bytes.take(2)) as u16), 2))
            }
        },
        Shape::U32 => {
            if bytes.len() < 4 {
                Err(SerbfError::Io)
            } else {
                Ok((Val::U32(le_val(bytes.take(4)) as u32), 4))
            }
        },
        Shape::U64 => {
            if bytes.len() < 8 {
                Err(SerbfError::Io)
            } else {
                Ok((Val::U64(le_val(bytes.take(8)) as u64), 8))
            }
        },
        Shape::U128 => {
            if bytes.len() < 16 {
                Err(SerbfError::Io)
            } else {
                Ok((Val::U128(le_val(bytes.take(16)) as u128), 16))
            }
        },
        Shape::I8 => {
            if bytes.len() < 1 {
                Err(SerbfError::Io)
            } else {
                Ok((Val::I8(i8_of_rep(le_val(bytes.take(1)))), 1))
            }
        },
        Shape::I16 => {
            if bytes.len() < 2 {
                Err(SerbfError::Io)
            } else {
                Ok((Val::I16(i16_of_rep(le_val(bytes.take(2)))), 2))
            }
        },
        Shape::I32 => {
            if bytes.len() < 4 {
                Err(SerbfError::Io)
            } else {
                Ok((Val::I32(i32_of_rep(le_val(bytes.take(4)))), 4))
            }
        },
        Shape::I64 => {
            if bytes.len() < 8 {
                Err(SerbfError::Io)
            } else {
                Ok((Val::I64(i64_of_rep(le_val(bytes.take(8)))), 8))
            }
        },
        Shape::I128 => {
            if bytes.len() < 16 {
                Err(SerbfError::Io)
            } else {
                Ok((Val::I128(i128_of_rep(le_val(bytes.take(16)))), 16))
            }
        },
        Shape::Char => {
            if !varint_terminated(bytes) || varint_value(bytes) >= 0x1_0000_0000_0000_0000 {
                Err(SerbfError::Io)
            } else {
                let n = varint_value(bytes);
                let k = varint_size(bytes);
                if bytes.skip(k as int).len() < n {
                    Err(SerbfError::Io)
                } else {
                    let payload = bytes.skip(k as int).take(n as int);
                    if !valid_utf8(payload) {
                        Err(SerbfError::InvalidUtf8)
                    } else if decode_utf8(payload).len() == 0 {
                        Err(SerbfError::InvalidChar)
                    } else {
                        Ok((Val::Char(decode_utf8(payload)[0]), k + n))
                    }
                }
            }
        },
        Shape::Str => {
            if !varint_terminated(bytes) || varint_value(bytes) >= 0x1_0000_0000_0000_0000 {
                Err(SerbfError::Io)
            } else {
                let n = varint_value(bytes);
                let k = varint_size(bytes);
                if bytes.skip(k as int).len() < n {
                    Err(SerbfError::Io)
                } else {
                    let payload = bytes.skip(k as int).take(n as int);
                    if !valid_utf8(payload) {
                        Err(SerbfError::InvalidUtf8)
                    } else {
                        Ok((Val::Str(decode_utf8(payload)), k + n))
                    }
                }
            }
        },
        Shape::Bytes => {
            if !varint_terminated(bytes) || varint_value(bytes) >= 0x1_0000_0000_0000_0000 {
                Err(SerbfError::Io)
            } else {
                let n = varint_value(bytes);
                let k = varint_size(bytes);
                if bytes.skip(k as int).len() < n {
                    Err(SerbfError::Io)
                } else {
                    Ok((Val::Bytes(bytes.skip(k as int).take(n as int)), k + n))
                }
            }
        },
        Shape::Unit => Ok((Val::Unit, 0)),
        Shape::Optional(inner) => {
            if bytes.len() < 1 {
                Err(SerbfError::Io)
            } else if bytes[0] == 0 {
                Ok((Val::Absent, 1))
            } else if bytes[0] == 1 {
                match decoding(bytes.skip(1), *inner) {
                    Ok((v, k)) => Ok((Val::Present(Box::new(v)), 1 + k)),
                    Err(e) => Err(e),
                }
            } else {
                Err(SerbfError::InvalidDiscriminant)
            }
        },
        Shape::Sequence(inner) => {
            if !varint_terminated(bytes) || varint_value(bytes) >= 0x1_0000_0000_0000_0000 {
                Err(SerbfError::Io)
            } else {
                let n = varint_value(bytes);
                let k = varint_size(bytes);
                match decoding_count(bytes.skip(k as int), *inner, n) {
                    Ok((vs, k2)) => Ok((Val::Sequence(vs), k + k2)),
                    Err(e) => Err(e),
                }
            }
        },
        Shape::Tuple(ss) => match decoding_members(bytes, ss@, 0) {
            Ok((vs, k)) => Ok((Val::Tuple(vs), k)),
            Err(e) => Err(e),
        },
        Shape::Record(ss) => match decoding_members(bytes, ss@, 0) {
            Ok((vs, k)) => Ok((Val::Record(vs), k)),
            Err(e) => Err(e),
        },
        Shape::Union(vs) => {
            if !varint_terminated(bytes) || varint_value(bytes) >= 0x1_0000_0000_0000_0000 {
                Err(SerbfError::Io)
            } else {
                let idx = varint_value(bytes);
                let k = varint_size(bytes);
                if idx >= vs@.len() {
                    Err(SerbfError::InvalidDiscriminant)
                } else {
                    match decoding(bytes.skip(k as int), vs@[idx as int]) {
                        Ok((v, k2)) => Ok((Val::Union(idx as u64, Box::new(v)), k + k2)),
                        Err(e) => Err(e),
                    }
                }
            }
        },
        Shape::Dict(_, _) => {
            if !varint_terminated(bytes) || varint_value(bytes) >= 0x1_0000_0000_0000_0000 {
                Err(SerbfError::Io)
            } else {
                let n = varint_value(bytes);
                let k = varint_size(bytes);
                match decoding_entries(bytes.skip(k as int), s, n) {
                    Ok((ps, k2)) => Ok((Val::Dict(ps), k + k2)),
                    Err(e) => Err(e),
                }
            }
        },
    }
}

/// `n` consecutive elements of shape `elem`, decoded from the front of
/// `bytes`.
pub open spec fn decoding_count(bytes: Seq<u8>, elem: Shape, n: nat) -> Result<
    (Seq<Val>, nat),
    SerbfError,
>
    decreases elem, 2int, n,
{
    if n == 0 {
        Ok((Seq::empty(), 0))
    } else {
        match decoding(bytes, elem) {
            Ok((v, k)) => match decoding_count(bytes.skip(k as int), elem, (n - 1) as nat) {
                Ok((vs, k2)) => Ok((seq![v] + vs, k + k2)),
                Err(e) => Err(e),
            },
            Err(e) => Err(e),
        }
    }
}

/// The members of a tuple or record from index `i` on, each decoded with its
/// own declared shape, in declaration order.
pub open spec fn decoding_members(bytes: Seq<u8>, shapes: Seq<Shape>, i: int) -> Result<
    (Seq<Val>, nat),
    SerbfError,
>
    decreases shapes, 0int, shapes.len() - i,
{
    if i < 0 || i >= shapes.len() {
        Ok((Seq::empty(), 0))
    } else {
        match decoding(bytes, shapes[i]) {
            Ok((v, k)) => match decoding_members(bytes.skip(k as int), shapes, i + 1) {
                Ok((vs, k2)) => Ok((seq![v] + vs, k + k2)),
                Err(e) => Err(e),
            },
            Err(e) => Err(e),
        }
    }
}

/// `n` key/value entries of a map shape `owner`, each key decode immediately
/// followed by its value decode.
pub open spec fn decoding_entries(bytes: Seq<u8>, owner: Shape, n: nat) -> Result<
    (Seq<(Val, Val)>, nat),
    SerbfError,
>
    decreases owner, 0int, n,
{
    match owner {
        Shape::Dict(ks, vs) => {
            if n == 0 {
                Ok((Seq::empty(), 0))
            } else {
                match decoding(bytes, *ks) {
                    Ok((kv, k1)) => match decoding(bytes.skip(k1 as int), *vs) {
                        Ok((vv, k2)) => match decoding_entries(
                            bytes.skip((k1 + k2) as int),
                            owner,
                            (n - 1) as nat,
                        ) {
                            Ok((ps, k3)) => Ok((seq![(kv, vv)] + ps, k1 + k2 + k3)),
                            Err(e) => Err(e),
                        },
                        Err(e) => Err(e),
                    },
                    Err(e) => Err(e),
                }
            }
        },
        _ => Err(SerbfError::Io),
    }
}

/// A successful decode never consumes more bytes than the buffer holds.
pub broadcast proof fn lemma_decoding_consumed(bytes: Seq<u8>, s: Shape)
    ensures
        (#[trigger] decoding(bytes, s)) matches Ok(p) ==> p.1 <= bytes.len(),
    decreases s, 1int, 0int,
{
    broadcast use crate::varint::lemma_varint_size_bound;

    match s {
        Shape::Optional(inner) => {
            if bytes.len() >= 1 && bytes[0] == 1 {
                lemma_decoding_consumed(bytes.skip(1), *inner);
            }
        },
        Shape::Sequence(inner) => {
            if varint_terminated(bytes) && varint_value(bytes) < 0x1_0000_0000_0000_0000 {
                let k = varint_size(bytes);
                lemma_decoding_count_consumed(bytes.skip(k as int), *inner, varint_value(bytes));
            }
        },
        Shape::Tuple(ss) => {
            lemma_decoding_members_consumed(bytes, ss@, 0);
        },
        Shape::Record(ss) => {
            lemma_decoding_members_consumed(bytes, ss@, 0);
        },
        Shape::Union(vs) => {
            if varint_terminated(bytes) && varint_value(bytes) < 0x1_0000_0000_0000_0000 {
                let idx = varint_value(bytes);
                let k = varint_size(bytes);
                if idx < vs@.len() {
                    lemma_decoding_consumed(bytes.skip(k as int), vs@[idx as int]);
                }
            }
        },
        Shape::Dict(_, _) => {
            if varint_terminated(bytes) && varint_value(bytes) < 0x1_0000_0000_0000_0000 {
                let k = varint_size(bytes);
                lemma_decoding_entries_consumed(bytes.skip(k as int), s, varint_value(bytes));
            }
        },
        _ => {
        },
    }
}

pub broadcast proof fn lemma_decoding_count_consumed(bytes: Seq<u8>, elem: Shape, n: nat)
    ensures
        (#[trigger] decoding_count(bytes, elem, n)) matches Ok(p) ==> p.1 <= bytes.len(),
    decreases elem, 2int, n,
{
    if n > 0 {
        lemma_decoding_consumed(bytes, elem);
        match decoding(bytes, elem) {
            Ok(p) => {
                lemma_decoding_count_consumed(bytes.skip(p.1 as int), elem, (n - 1) as nat);
            },
            _ => {
            },
        }
    }
}

pub broadcast proof fn lemma_decoding_members_consumed(bytes: Seq<u8>, shapes: Seq<Shape>, i: int)
    ensures
        (#[trigger] decoding_members(bytes, shapes, i)) matches Ok(p) ==> p.1 <= bytes.len(),
    decreases shapes, 0int, shapes.len() - i,
{
    if 0 <= i < shapes.len() {
        lemma_decoding_consumed(bytes, shapes[i]);
        match decoding(bytes, shapes[i]) {
            Ok(p) => {
                lemma_decoding_members_consumed(bytes.skip(p.1 as int), shapes, i + 1);
            },
            _ => {
            },
        }
    }
}

pub broadcast proof fn lemma_decoding_entries_consumed(bytes: Seq<u8>, owner: Shape, n: nat)
    ensures
        (#[trigger] decoding_entries(bytes, owner, n)) matches Ok(p) ==> p.1 <= bytes.len(),
    decreases owner, 0int, n,
{
    match owner {
        Shape::Dict(ks, vs) => {
            if n > 0 {
                lemma_decoding_consumed(bytes, *ks);
                match decoding(bytes, *ks) {
                    Ok(p1) => {
                        lemma_decoding_consumed(bytes.skip(p1.1 as int), *vs);
                        match decoding(bytes.skip(p1.1 as int), *vs) {
                            Ok(p2) => {
                                lemma_decoding_entries_consumed(
                                    bytes.skip((p1.1 + p2.1) as int),
                                    owner,
                                    (n - 1) as nat,
                                );
                            },
                            _ => {
                            },
                        }
                    },
                    _ => {
                    },
                }
            }
        },
        _ => {
        },
    }
}

} // verus!
