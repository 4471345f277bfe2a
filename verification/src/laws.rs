//! The laws of the wire format, proved once about the mathematical model.
//!
//! The executable encoder and decoder are specified exactly by
//! [`crate::wire::encoding`] and [`crate::wire::decoding`], so each law here
//! carries over to every run of the executable code.

use vstd::prelude::*;

use crate::error::SerbfError;
use crate::fixed::{le_bytes, lemma_le_bytes_len, lemma_le_round_trip, lemma_pow256_values,
    lemma_rep_round_trip, pow256, rep_i128, rep_i16, rep_i32, rep_i64, rep_i8};
use crate::value::{shape_matches, Shape, Val};
use crate::varint::{lemma_varint_round_trip, varint_bytes, varint_size, varint_terminated,
    varint_value};
use crate::wire::{decoding, decoding_count, decoding_entries, decoding_members, encoding,
    encoding_list, encoding_pairs};
use vstd::utf8::{decode_utf8, encode_utf8, valid_utf8};

verus! {

broadcast use vstd::utf8::encode_utf8_valid_utf8, vstd::utf8::encode_utf8_decode_utf8;

/// Round-trip law: a value of any supported shape, encoded and then decoded
/// against that shape, comes back unchanged, whatever bytes follow it, and
/// the decoder consumes exactly the encoding.
#[verifier::rlimit(100)]
pub proof fn lemma_round_trip(v: Val, s: Shape, rest: Seq<u8>)
    requires
        shape_matches(v, s),
    ensures
        decoding(encoding(v) + rest, s) == Ok::<(Val, nat), SerbfError>(
            (v, encoding(v).len()),
        ),
    decreases s, 1int, 0int,
{
    lemma_pow256_values();
    lemma_rep_round_trip();
    let bytes = encoding(v) + rest;
    match s {
        Shape::Bool => {
            assert(bytes[0] == encoding(v)[0]);
        },
        Shape::U8 => {
            let x = v->U8_0;
            lemma_le_bytes_len(x as nat, 1);
            assert(bytes.take(1) =~= le_bytes(x as nat, 1));
            lemma_le_round_trip(x as nat, 1);
        },
        Shape::U16 => {
            let x = v->U16_0;
            lemma_le_bytes_len(x as nat, 2);
            assert(bytes.take(2) =~= le_bytes(x as nat, 2));
            lemma_le_round_trip(x as nat, 2);
        },
        Shape::U32 => {
            let x = v->U32_0;
            lemma_le_bytes_len(x as nat, 4);
            assert(bytes.take(4) =~= le_bytes(x as nat, 4));
            lemma_le_round_trip(x as nat, 4);
        },
        Shape::U64 => {
            let x = v->U64_0;
            lemma_le_bytes_len(x as nat, 8);
            assert(bytes.take(8) =~= le_bytes(x as nat, 8));
            lemma_le_round_trip(x as nat, 8);
        },
        Shape::U128 => {
            let x = v->U128_0;
            lemma_le_bytes_len(x as nat, 16);
            assert(bytes.take(16) =~= le_bytes(x as nat, 16));
            lemma_le_round_trip(x as nat, 16);
        },
        Shape::I8 => {
            let x = v->I8_0;
            lemma_le_bytes_len(rep_i8(x), 1);
            assert(bytes.take(1) =~= le_bytes(rep_i8(x), 1));
            lemma_le_round_trip(rep_i8(x), 1);
        },
        Shape::I16 => {
            let x = v->I16_0;
            lemma_le_bytes_len(rep_i16(x), 2);
            assert(bytes.take(2) =~= le_bytes(rep_i16(x), 2));
            lemma_le_round_trip(rep_i16(x), 2);
        },
        Shape::I32 => {
            let x = v->I32_0;
            lemma_le_bytes_len(rep_i32(x), 4);
            assert(bytes.take(4) =~= le_bytes(rep_i32(x), 4));
            lemma_le_round_trip(rep_i32(x), 4);
        },
        Shape::I64 => {
            let x = v->I64_0;
            lemma_le_bytes_len(rep_i64(x), 8);
            assert(bytes.take(8) =~= le_bytes(rep_i64(x), 8));
            lemma_le_round_trip(rep_i64(x), 8);
        },
        Shape::I128 => {
            let x = v->I128_0;
            lemma_le_bytes_len(rep_i128(x), 16);
            assert(bytes.take(16) =~= le_bytes(rep_i128(x), 16));
            lemma_le_round_trip(rep_i128(x), 16);
        },
        Shape::Char => {
            let c = v->Char_0;
            let b = encode_utf8(seq![c]);
            assert(seq![c].drop_first() =~= Seq::<char>::empty());
            assert(b == vstd::utf8::encode_scalar(c as u32) + encode_utf8(Seq::<char>::empty()));
            vstd::utf8::char_is_scalar(c);
            assert(b.len() <= 4);
            assert(bytes =~= varint_bytes(b.len()) + (b + rest));
            lemma_varint_round_trip(b.len(), b + rest);
            let k = varint_size(bytes);
            assert(bytes.skip(k as int) =~= b + rest);
            assert(bytes.skip(k as int).take(b.len() as int) =~= b);
            assert(decode_utf8(b) == seq![c]);
        },
        Shape::Str => {
            let cs = v->Str_0;
            let b = encode_utf8(cs);
            assert(bytes =~= varint_bytes(b.len()) + (b + rest));
            lemma_varint_round_trip(b.len(), b + rest);
            let k = varint_size(bytes);
            assert(bytes.skip(k as int) =~= b + rest);
            assert(bytes.skip(k as int).take(b.len() as int) =~= b);
            assert(decode_utf8(b) == cs);
        },
        Shape::Bytes => {
            let b = v->Bytes_0;
            assert(bytes =~= varint_bytes(b.len()) + (b + rest));
            lemma_varint_round_trip(b.len(), b + rest);
            let k = varint_size(bytes);
            assert(bytes.skip(k as int) =~= b + rest);
            assert(bytes.skip(k as int).take(b.len() as int) =~= b);
        },
        Shape::Unit => {
        },
        Shape::Optional(inner) => {
            match v {
                Val::Absent => {
                    assert(bytes[0] == 0);
                },
                Val::Present(p) => {
                    assert(bytes[0] == 1);
                    assert(bytes.skip(1) =~= encoding(*p) + rest);
                    lemma_round_trip(*p, *inner, rest);
                },
                _ => {
                },
            }
        },
        Shape::Sequence(inner) => {
            let es = v->Sequence_0;
            let body = encoding_list(es, 0);
            assert(bytes =~= varint_bytes(es.len()) + (body + rest));
            lemma_varint_round_trip(es.len(), body + rest);
            let k = varint_size(bytes);
            assert(bytes.skip(k as int) =~= body + rest);
            lemma_round_trip_list(es, *inner, rest, 0);
            assert(es.skip(0) =~= es);
        },
        Shape::Tuple(ss) => {
            let es = v->Tuple_0;
            lemma_round_trip_members(es, ss@, rest, 0);
            assert(es.skip(0) =~= es);
        },
        Shape::Record(ss) => {
            let es = v->Record_0;
            lemma_round_trip_members(es, ss@, rest, 0);
            assert(es.skip(0) =~= es);
        },
        Shape::Union(vs) => {
            let idx = v->Union_0;
            let p = v->Union_1;
            assert(bytes =~= varint_bytes(idx as nat) + (encoding(*p) + rest));
            lemma_varint_round_trip(idx as nat, encoding(*p) + rest);
            let k = varint_size(bytes);
            assert(bytes.skip(k as int) =~= encoding(*p) + rest);
            lemma_round_trip(*p, vs@[idx as int], rest);
        },
        Shape::Dict(_, _) => {
            let ps = v->Dict_0;
            let body = encoding_pairs(ps, 0);
            assert(bytes =~= varint_bytes(ps.len()) + (body + rest));
            lemma_varint_round_trip(ps.len(), body + rest);
            let k = varint_size(bytes);
            assert(bytes.skip(k as int) =~= body + rest);
            lemma_round_trip_entries(ps, s, rest, 0);
            assert(ps.skip(0) =~= ps);
        },
    }
}

/// Round trip for the elements of a sequence from index `i` on.
pub proof fn lemma_round_trip_list(es: Seq<Val>, elem: Shape, rest: Seq<u8>, i: int)
    requires
        0 <= i <= es.len(),
        forall|j: int| 0 <= j < es.len() ==> shape_matches(#[trigger] es[j], elem),
    ensures
        decoding_count(encoding_list(es, i) + rest, elem, (es.len() - i) as nat) == Ok::<
            (Seq<Val>, nat),
            SerbfError,
        >((es.skip(i), encoding_list(es, i).len())),
    decreases elem, 2int, es.len() - i,
{
    if i == es.len() {
        assert(es.skip(i) =~= Seq::<Val>::empty());
    } else {
        let bytes = encoding_list(es, i) + rest;
        let tail = encoding_list(es, i + 1) + rest;
        assert(bytes =~= encoding(es[i]) + tail);
        lemma_round_trip(es[i], elem, tail);
        let k = encoding(es[i]).len();
        assert(bytes.skip(k as int) =~= tail);
        lemma_round_trip_list(es, elem, rest, i + 1);
        assert(seq![es[i]] + es.skip(i + 1) =~= es.skip(i));
    }
}

/// Round trip for the members of a tuple or record from index `i` on.
pub proof fn lemma_round_trip_members(es: Seq<Val>, shapes: Seq<Shape>, rest: Seq<u8>, i: int)
    requires
        0 <= i <= es.len(),
        es.len() == shapes.len(),
        forall|j: int| 0 <= j < es.len() ==> shape_matches(#[trigger] es[j], shapes[j]),
    ensures
        decoding_members(encoding_list(es, i) + rest, shapes, i) == Ok::<
            (Seq<Val>, nat),
            SerbfError,
        >((es.skip(i), encoding_list(es, i).len())),
    decreases shapes, 0int, shapes.len() - i,
{
    if i == es.len() {
        assert(es.skip(i) =~= Seq::<Val>::empty());
    } else {
        let bytes = encoding_list(es, i) + rest;
        let tail = encoding_list(es, i + 1) + rest;
        assert(bytes =~= encoding(es[i]) + tail);
        lemma_round_trip(es[i], shapes[i], tail);
        let k = encoding(es[i]).len();
        assert(bytes.skip(k as int) =~= tail);
        lemma_round_trip_members(es, shapes, rest, i + 1);
        assert(seq![es[i]] + es.skip(i + 1) =~= es.skip(i));
    }
}

/// Round trip for the entries of a map from index `i` on.
pub proof fn lemma_round_trip_entries(ps: Seq<(Val, Val)>, owner: Shape, rest: Seq<u8>, i: int)
    requires
        0 <= i <= ps.len(),
        owner is Dict,
        forall|j: int|
            0 <= j < ps.len() ==> shape_matches(#[trigger] ps[j].0, *owner->Dict_0)
                && shape_matches(ps[j].1, *owner->Dict_1),
    ensures
        decoding_entries(encoding_pairs(ps, i) + rest, owner, (ps.len() - i) as nat) == Ok::<
            (Seq<(Val, Val)>, nat),
            SerbfError,
        >((ps.skip(i), encoding_pairs(ps, i).len())),
    decreases owner, 0int, ps.len() - i,
{
    if i == ps.len() {
        assert(ps.skip(i) =~= Seq::<(Val, Val)>::empty());
    } else {
        let bytes = encoding_pairs(ps, i) + rest;
        let tail = encoding_pairs(ps, i + 1) + rest;
        let vtail = encoding(ps[i].1) + tail;
        assert(bytes =~= encoding(ps[i].0) + vtail);
        lemma_round_trip(ps[i].0, *owner->Dict_0, vtail);
        let k1 = encoding(ps[i].0).len();
        assert(bytes.skip(k1 as int) =~= vtail);
        lemma_round_trip(ps[i].1, *owner->Dict_1, tail);
        let k2 = encoding(ps[i].1).len();
        assert(vtail.skip(k2 as int) =~= tail);
        assert(bytes.skip((k1 + k2) as int) =~= tail);
        lemma_round_trip_entries(ps, owner, rest, i + 1);
        assert(seq![ps[i]] + ps.skip(i + 1) =~= ps.skip(i));
    }
}

/// Truncation law: a valid encoding with any trailing part removed fails to
/// decode, with the buffer-exhausted failure kind, never any other outcome.
#[verifier::rlimit(100)]
pub proof fn lemma_truncation(v: Val, s: Shape, j: int)
    requires
        shape_matches(v, s),
        0 <= j < encoding(v).len(),
    ensures
        decoding(encoding(v).take(j), s) == Err::<(Val, nat), SerbfError>(SerbfError::Io),
    decreases s, 1int, 0int,
{
    lemma_pow256_values();
    let trunc = encoding(v).take(j);
    match s {
        Shape::Bool | Shape::Unit => {
        },
        Shape::U8 => {
            lemma_le_bytes_len(v->U8_0 as nat, 1);
        },
        Shape::I8 => {
            lemma_le_bytes_len(rep_i8(v->I8_0), 1);
        },
        Shape::U16 => {
            lemma_le_bytes_len(v->U16_0 as nat, 2);
        },
        Shape::U32 => {
            lemma_le_bytes_len(v->U32_0 as nat, 4);
                },
        Shape::U64 => {
            lemma_le_bytes_len(v->U64_0 as nat, 8);
                },
        Shape::U128 => {
            lemma_le_bytes_len(v->U128_0 as nat, 16);
                },
        Shape::I16 => {
            lemma_le_bytes_len(rep_i16(v->I16_0), 2);
                },
        Shape::I32 => {
            lemma_le_bytes_len(rep_i32(v->I32_0), 4);
                },
        Shape::I64 => {
            lemma_le_bytes_len(rep_i64(v->I64_0), 8);
                },
        Shape::I128 => {
            lemma_le_bytes_len(rep_i128(v->I128_0), 16);
                },
        Shape::Char => {
            let c = v->Char_0;
            let b = encode_utf8(seq![c]);
            assert(seq![c].drop_first() =~= Seq::<char>::empty());
            assert(b == vstd::utf8::encode_scalar(c as u32) + encode_utf8(Seq::<char>::empty()));
            vstd::utf8::char_is_scalar(c);
            assert(b.len() <= 4);
            lemma_truncated_prefixed(b.len(), b, j, trunc, encoding(v));
        },
        Shape::Str => {
            let b = encode_utf8(v->Str_0);
            lemma_truncated_prefixed(b.len(), b, j, trunc, encoding(v));
        },
        Shape::Bytes => {
            let b = v->Bytes_0;
            lemma_truncated_prefixed(b.len(), b, j, trunc, encoding(v));
        },
        Shape::Optional(inner) => {
            match v {
                Val::Present(p) => {
                    if j >= 1 {
                        assert(trunc[0] == 1);
                        assert(trunc.skip(1) =~= encoding(*p).take(j - 1));
                        lemma_truncation(*p, *inner, j - 1);
                    }
                },
                _ => {
                },
            }
        },
        Shape::Sequence(inner) => {
            let es = v->Sequence_0;
            let pre = varint_bytes(es.len());
            let body = encoding_list(es, 0);
            let k = pre.len();
            if j < k {
                assert(trunc =~= pre.take(j));
                crate::varint::lemma_varint_truncated(es.len(), j);
            } else {
                assert(trunc =~= pre + body.take(j - k));
                lemma_varint_round_trip(es.len(), body.take(j - k));
                assert(trunc.skip(k as int) =~= body.take(j - k));
                lemma_truncation_list(es, *inner, 0, j - k);
            }
        },
        Shape::Tuple(ss) => {
            lemma_truncation_members(v->Tuple_0, ss@, 0, j);
        },
        Shape::Record(ss) => {
            lemma_truncation_members(v->Record_0, ss@, 0, j);
        },
        Shape::Union(vs) => {
            let idx = v->Union_0;
            let p = v->Union_1;
            let pre = varint_bytes(idx as nat);
            let k = pre.len();
            if j < k {
                assert(trunc =~= pre.take(j));
                crate::varint::lemma_varint_truncated(idx as nat, j);
            } else {
                assert(trunc =~= pre + encoding(*p).take(j - k));
                lemma_varint_round_trip(idx as nat, encoding(*p).take(j - k));
                assert(trunc.skip(k as int) =~= encoding(*p).take(j - k));
                lemma_truncation(*p, vs@[idx as int], j - k);
            }
        },
        Shape::Dict(_, _) => {
            let ps = v->Dict_0;
            let pre = varint_bytes(ps.len());
            let body = encoding_pairs(ps, 0);
            let k = pre.len();
            if j < k {
                assert(trunc =~= pre.take(j));
                crate::varint::lemma_varint_truncated(ps.len(), j);
            } else {
                assert(trunc =~= pre + body.take(j - k));
                lemma_varint_round_trip(ps.len(), body.take(j - k));
                assert(trunc.skip(k as int) =~= body.take(j - k));
                assert(forall|m: int|
                    0 <= m < ps.len() ==> shape_matches(#[trigger] ps[m].0, *s->Dict_0)
                        && shape_matches(ps[m].1, *s->Dict_1));
                lemma_truncation_entries(ps, s, 0, j - k);
            }
        },
    }
}

/// A truncated varint-length-prefixed payload (character, string, or blob)
/// fails before any payload validation can run: either inside the varint or
/// at the length check, both reported as `Io`.
proof fn lemma_truncated_prefixed(n: nat, payload: Seq<u8>, j: int, trunc: Seq<u8>, whole: Seq<u8>)
    requires
        n == payload.len(),
        n < 0x1_0000_0000_0000_0000,
        whole == varint_bytes(n) + payload,
        0 <= j < whole.len(),
        trunc == whole.take(j),
    ensures
        !varint_terminated(trunc) || (varint_terminated(trunc) && varint_value(trunc) == n
            && varint_size(trunc) <= j && trunc.skip(varint_size(trunc) as int).len() < n),
        varint_terminated(trunc) ==> varint_value(trunc) < 0x1_0000_0000_0000_0000,
{
    let pre = varint_bytes(n);
    let k = pre.len();
    if j < k {
        assert(trunc =~= pre.take(j));
        crate::varint::lemma_varint_truncated(n, j);
    } else {
        assert(trunc =~= pre + payload.take(j - k));
        lemma_varint_round_trip(n, payload.take(j - k));
        assert(trunc.skip(k as int) =~= payload.take(j - k));
    }
}

/// Truncation law for the elements of a sequence from index `i` on.
pub proof fn lemma_truncation_list(es: Seq<Val>, elem: Shape, i: int, j: int)
    requires
        0 <= i <= es.len(),
        forall|m: int| 0 <= m < es.len() ==> shape_matches(#[trigger] es[m], elem),
        0 <= j < encoding_list(es, i).len(),
    ensures
        decoding_count(encoding_list(es, i).take(j), elem, (es.len() - i) as nat) == Err::<
            (Seq<Val>, nat),
            SerbfError,
        >(SerbfError::Io),
    decreases elem, 2int, es.len() - i,
{
    let trunc = encoding_list(es, i).take(j);
    let k1 = encoding(es[i]).len();
    if j < k1 {
        assert(trunc =~= encoding(es[i]).take(j));
        lemma_truncation(es[i], elem, j);
    } else {
        let tail = encoding_list(es, i + 1).take(j - k1);
        assert(trunc =~= encoding(es[i]) + tail);
        lemma_round_trip(es[i], elem, tail);
        assert(trunc.skip(k1 as int) =~= tail);
        lemma_truncation_list(es, elem, i + 1, j - k1);
    }
}

/// Truncation law for the members of a tuple or record from index `i` on.
pub proof fn lemma_truncation_members(es: Seq<Val>, shapes: Seq<Shape>, i: int, j: int)
    requires
        0 <= i <= es.len(),
        es.len() == shapes.len(),
        forall|m: int| 0 <= m < es.len() ==> shape_matches(#[trigger] es[m], shapes[m]),
        0 <= j < encoding_list(es, i).len(),
    ensures
        decoding_members(encoding_list(es, i).take(j), shapes, i) == Err::<
            (Seq<Val>, nat),
            SerbfError,
        >(SerbfError::Io),
    decreases shapes, 0int, shapes.len() - i,
{
    let trunc = encoding_list(es, i).take(j);
    let k1 = encoding(es[i]).len();
    if j < k1 {
        assert(trunc =~= encoding(es[i]).take(j));
        lemma_truncation(es[i], shapes[i], j);
    } else {
        let tail = encoding_list(es, i + 1).take(j - k1);
        assert(trunc =~= encoding(es[i]) + tail);
        lemma_round_trip(es[i], shapes[i], tail);
        assert(trunc.skip(k1 as int) =~= tail);
        lemma_truncation_members(es, shapes, i + 1, j - k1);
    }
}

/// Truncation law for the entries of a map from index `i` on.
pub proof fn lemma_truncation_entries(ps: Seq<(Val, Val)>, owner: Shape, i: int, j: int)
    requires
        0 <= i <= ps.len(),
        owner is Dict,
        forall|m: int|
            0 <= m < ps.len() ==> shape_matches(#[trigger] ps[m].0, *owner->Dict_0)
                && shape_matches(ps[m].1, *owner->Dict_1),
        0 <= j < encoding_pairs(ps, i).len(),
    ensures
        decoding_entries(encoding_pairs(ps, i).take(j), owner, (ps.len() - i) as nat) == Err::<
            (Seq<(Val, Val)>, nat),
            SerbfError,
        >(SerbfError::Io),
    decreases owner, 0int, ps.len() - i,
{
    let trunc = encoding_pairs(ps, i).take(j);
    let k1 = encoding(ps[i].0).len();
    let k2 = encoding(ps[i].1).len();
    if j < k1 {
        assert(trunc =~= encoding(ps[i].0).take(j));
        lemma_truncation(ps[i].0, *owner->Dict_0, j);
    } else if j < k1 + k2 {
        let vtail = encoding(ps[i].1).take(j - k1);
        assert(trunc =~= encoding(ps[i].0) + vtail);
        lemma_round_trip(ps[i].0, *owner->Dict_0, vtail);
        assert(trunc.skip(k1 as int) =~= vtail);
        lemma_truncation(ps[i].1, *owner->Dict_1, j - k1);
    } else {
        let tail = encoding_pairs(ps, i + 1).take(j - k1 - k2);
        let vtail = encoding(ps[i].1) + tail;
        assert(trunc =~= encoding(ps[i].0) + vtail);
        lemma_round_trip(ps[i].0, *owner->Dict_0, vtail);
        assert(trunc.skip(k1 as int) =~= vtail);
        lemma_round_trip(ps[i].1, *owner->Dict_1, tail);
        assert(vtail.skip(k2 as int) =~= tail);
        assert(trunc.skip((k1 + k2) as int) =~= tail);
        lemma_truncation_entries(ps, owner, i + 1, j - k1 - k2);
    }
}

/// Discriminant law for optionals: any leading byte other than 0 or 1 is
/// rejected as an invalid discriminant.
pub proof fn lemma_optional_bad_discriminant(bytes: Seq<u8>, inner: Box<Shape>)
    requires
        bytes.len() >= 1,
        bytes[0] != 0,
        bytes[0] != 1,
    ensures
        decoding(bytes, Shape::Optional(inner)) == Err::<(Val, nat), SerbfError>(
            SerbfError::InvalidDiscriminant,
        ),
{
}

/// Discriminant law for unions: a variant index at or beyond the declared
/// variant count is rejected as an invalid discriminant.
pub proof fn lemma_union_bad_index(n: nat, rest: Seq<u8>, vs: Vec<Shape>)
    requires
        vs@.len() <= n < 0x1_0000_0000_0000_0000,
    ensures
        decoding(varint_bytes(n) + rest, Shape::Union(vs)) == Err::<(Val, nat), SerbfError>(
            SerbfError::InvalidDiscriminant,
        ),
{
    lemma_varint_round_trip(n, rest);
}

/// A string payload that is not valid UTF-8 is rejected as `InvalidUtf8`.
pub proof fn lemma_invalid_utf8(payload: Seq<u8>, rest: Seq<u8>)
    requires
        payload.len() < 0x1_0000_0000_0000_0000,
        !valid_utf8(payload),
    ensures
        decoding(varint_bytes(payload.len()) + payload + rest, Shape::Str) == Err::<
            (Val, nat),
            SerbfError,
        >(SerbfError::InvalidUtf8),
{
    let bytes = varint_bytes(payload.len()) + payload + rest;
    assert(bytes =~= varint_bytes(payload.len()) + (payload + rest));
    lemma_varint_round_trip(payload.len(), payload + rest);
    let k = varint_size(bytes);
    assert(bytes.skip(k as int) =~= payload + rest);
    assert(bytes.skip(k as int).take(payload.len() as int) =~= payload);
}

/// An empty character payload is a distinct failure from malformed UTF-8:
/// at least one Unicode scalar value was expected.
pub proof fn lemma_empty_char(rest: Seq<u8>)
    ensures
        decoding(varint_bytes(0) + rest, Shape::Char) == Err::<(Val, nat), SerbfError>(
            SerbfError::InvalidChar,
        ),
{
    let bytes = varint_bytes(0) + rest;
    lemma_varint_round_trip(0, rest);
    let k = varint_size(bytes);
    assert(bytes.skip(k as int) =~= rest);
    assert(bytes.skip(k as int).take(0) =~= Seq::<u8>::empty());
}

/// Fixed-width law: an unsigned 32-bit value always encodes to exactly 4
/// bytes, least-significant byte first.
pub proof fn lemma_fixed_width_u32(x: u32)
    ensures
        encoding(Val::U32(x)).len() == 4,
        forall|i: int|
            0 <= i < 4 ==> encoding(Val::U32(x))[i] == (((x as nat) / pow256(i as nat))
                % 256) as u8,
{
    lemma_le_bytes_len(x as nat, 4);
    assert forall|i: int| 0 <= i < 4 implies encoding(Val::U32(x))[i] == (((x as nat) / pow256(
        i as nat,
    )) % 256) as u8 by {
        crate::fixed::lemma_le_bytes_index(x as nat, 4, i);
    }
}

/// Fixed-width law: a boolean always encodes to exactly 1 byte, holding 0
/// or 1.
pub proof fn lemma_fixed_width_bool(b: bool)
    ensures
        encoding(Val::Bool(b)).len() == 1,
        encoding(Val::Bool(b))[0] == if b {
            1u8
        } else {
            0u8
        },
{
}

} // verus!
