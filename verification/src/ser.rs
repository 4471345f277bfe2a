//! The encoder: a depth-first walker that appends a value's encoding to an
//! owned, append-only byte sink.
//!
//! Each method appends exactly the bytes that [`crate::wire::encoding`]
//! prescribes for its node.  The per-node methods serve an external
//! schema-driven traversal; [`SerbfSerializer::encode_value`] walks a whole
//! [`Value`] tree.  The sink is owned exclusively by one serializer and only
//! ever appended to.

use vstd::prelude::*;

use crate::error::SerbfError;
use crate::fixed::{i128_to_rep, i16_to_rep, i32_to_rep, i64_to_rep, i8_to_rep,
    lemma_pow256_values, rep_i128, rep_i16, rep_i32, rep_i64, rep_i8, write_le};
use crate::value::{pairs_val_of, seq_val_of, val_of, lemma_pairs_val_of_len, lemma_seq_val_of_len,
    Val, Value};
use crate::varint::{encode_uint, varint_bytes};
use crate::wire::{encoding, encoding_list, encoding_pairs};
use vstd::utf8::{encode_scalar, encode_utf8};

verus! {

/// Appends every byte of `b` to `sink`.
fn append_bytes(sink: &mut Vec<u8>, b: &[u8])
    ensures
        final(sink)@ == old(sink)@ + b@,
{
    let n: usize = b.len();
    let mut i: usize = 0;
    while i < n
        invariant
            i <= n,
            n == b@.len(),
            sink@ =~= old(sink)@ + b@.take(i as int),
        decreases n - i,
    {
        let x: u8 = *vstd::slice::slice_index_get(b, i);
        sink.push(x);
        proof {
            assert(b@.take(i + 1) =~= b@.take(i as int).push(b@[i as int]));
        }
        i = i + 1;
    }
    proof {
        assert(b@.take(n as int) =~= b@);
    }
}

/// An owned, growable output buffer together with the encoder that fills it.
///
/// Created empty, fed exactly one top-level value's shape tree, then consumed
/// once with [`SerbfSerializer::into_inner`].  Its view is the byte sequence
/// written so far.
#[derive(Clone)]
pub struct SerbfSerializer {
    buf: Vec<u8>,
}

impl View for SerbfSerializer {
    type V = Seq<u8>;

    closed spec fn view(&self) -> Seq<u8> {
        self.buf@
    }
}

impl SerbfSerializer {
    /// A serializer with an empty sink.
    pub fn new() -> (r: Self)
        ensures
            r@ == Seq::<u8>::empty(),
    {
        SerbfSerializer { buf: Vec::new() }
    }

    /// Consumes the serializer and hands out the finished byte buffer.
    pub fn into_inner(self) -> (r: Vec<u8>)
        ensures
            r@ == self@,
    {
        self.buf
    }

    /// A boolean: one byte, 1 for true, 0 for false.
    pub fn serialize_bool(&mut self, v: bool) -> (r: Result<(), SerbfError>)
        ensures
            r is Ok,
            final(self)@ == old(self)@ + encoding(Val::Bool(v)),
    {
        if v {
            self.buf.push(1);
        } else {
            self.buf.push(0);
        }
        proof {
            assert(self@ =~= old(self)@ + encoding(Val::Bool(v)));
        }
        Ok(())
    }

    pub fn serialize_u8(&mut self, v: u8) -> (r: Result<(), SerbfError>)
        ensures
            r is Ok,
            final(self)@ == old(self)@ + encoding(Val::U8(v)),
    {
        proof {
            lemma_pow256_values();
        }
        write_le(&mut self.buf, v as u128, 1)
    }

    pub fn serialize_u16(&mut self, v: u16) -> (r: Result<(), SerbfError>)
        ensures
            r is Ok,
            final(self)@ == old(self)@ + encoding(Val::U16(v)),
    {
        proof {
            lemma_pow256_values();
        }
        write_le(&mut self.buf, v as u128, 2)
    }

    pub fn serialize_u32(&mut self, v: u32) -> (r: Result<(), SerbfError>)
        ensures
            r is Ok,
            final(self)@ == old(self)@ + encoding(Val::U32(v)),
    {
        proof {
            lemma_pow256_values();
        }
        write_le(&mut self.buf, v as u128, 4)
    }

    pub fn serialize_u64(&mut self, v: u64) -> (r: Result<(), SerbfError>)
        ensures
            r is Ok,
            final(self)@ == old(self)@ + encoding(Val::U64(v)),
    {
        proof {
            lemma_pow256_values();
        }
        write_le(&mut self.buf, v as u128, 8)
    }

    pub fn serialize_u128(&mut self, v: u128) -> (r: Result<(), SerbfError>)
        ensures
            r is Ok,
            final(self)@ == old(self)@ + encoding(Val::U128(v)),
    {
        proof {
            lemma_pow256_values();
        }
        write_le(&mut self.buf, v, 16)
    }

    pub fn serialize_i8(&mut self, v: i8) -> (r: Result<(), SerbfError>)
        ensures
            r is Ok,
            final(self)@ == old(self)@ + encoding(Val::I8(v)),
    {
        proof {
            lemma_pow256_values();
        }
        let rep: u8 = i8_to_rep(v);
        write_le(&mut self.buf, rep as u128, 1)
    }

    pub fn serialize_i16(&mut self, v: i16) -> (r: Result<(), SerbfError>)
        ensures
            r is Ok,
            final(self)@ == old(self)@ + encoding(Val::I16(v)),
    {
        proof {
            lemma_pow256_values();
        }
        let rep: u16 = i16_to_rep(v);
        write_le(&mut self.buf, rep as u128, 2)
    }

    pub fn serialize_i32(&mut self, v: i32) -> (r: Result<(), SerbfError>)
        ensures
            r is Ok,
            final(self)@ == old(self)@ + encoding(Val::I32(v)),
    {
        proof {
            lemma_pow256_values();
        }
        let rep: u32 = i32_to_rep(v);
        write_le(&mut self.buf, rep as u128, 4)
    }

    pub fn serialize_i64(&mut self, v: i64) -> (r: Result<(), SerbfError>)
        ensures
            r is Ok,
            final(self)@ == old(self)@ + encoding(Val::I64(v)),
    {
        proof {
            lemma_pow256_values();
        }
        let rep: u64 = i64_to_rep(v);
        write_le(&mut self.buf, rep as u128, 8)
    }

    pub fn serialize_i128(&mut self, v: i128) -> (r: Result<(), SerbfError>)
        ensures
            r is Ok,
            final(self)@ == old(self)@ + encoding(Val::I128(v)),
    {
        proof {
            lemma_pow256_values();
        }
        let rep: u128 = i128_to_rep(v);
        write_le(&mut self.buf, rep, 16)
    }

    /// A single Unicode scalar value: its UTF-8 bytes, preceded by their
    /// varint byte length.
    pub fn serialize_char(&mut self, v: char) -> (r: Result<(), SerbfError>)
        ensures
            r is Ok,
            final(self)@ == old(self)@ + encoding(Val::Char(v)),
    {
        let u: u32 = v as u32;
        proof {
            vstd::utf8::char_is_scalar(v);
            assert(seq![v].drop_first() =~= Seq::<char>::empty());
            assert(seq![v][0] == v);
            assert(encode_utf8(Seq::<char>::empty()) =~= Seq::<u8>::empty());
            assert(encode_utf8(seq![v]) =~= encode_scalar(u));
        }
        if u < 0x80 {
            let _ = encode_uint(&mut self.buf, 1);
            proof {
                assert((u & 0x7F) as u8 == u as u8) by (bit_vector)
                    requires
                        u < 0x80,
                ;
            }
            self.buf.push(u as u8);
        } else if u < 0x800 {
            let _ = encode_uint(&mut self.buf, 2);
            proof {
                assert(((u >> 6) & 0x1F) < 0x20) by (bit_vector);
                assert((u & 0x3F) < 0x40) by (bit_vector);
            }
            self.buf.push(0xC0 | (((u >> 6) & 0x1F) as u8));
            self.buf.push(0x80 | ((u & 0x3F) as u8));
        } else if u < 0x10000 {
            let _ = encode_uint(&mut self.buf, 3);
            proof {
                assert(((u >> 12) & 0x0F) < 0x10) by (bit_vector);
                assert(((u >> 6) & 0x3F) < 0x40) by (bit_vector);
                assert((u & 0x3F) < 0x40) by (bit_vector);
            }
            self.buf.push(0xE0 | (((u >> 12) & 0x0F) as u8));
            self.buf.push(0x80 | (((u >> 6) & 0x3F) as u8));
            self.buf.push(0x80 | ((u & 0x3F) as u8));
        } else {
            let _ = encode_uint(&mut self.buf, 4);
            proof {
                assert(((u >> 18) & 0x7) < 0x8) by (bit_vector);
                assert(((u >> 12) & 0x3F) < 0x40) by (bit_vector);
                assert(((u >> 6) & 0x3F) < 0x40) by (bit_vector);
                assert((u & 0x3F) < 0x40) by (bit_vector);
            }
            self.buf.push(0xF0 | (((u >> 18) & 0x7) as u8));
            self.buf.push(0x80 | (((u >> 12) & 0x3F) as u8));
            self.buf.push(0x80 | (((u >> 6) & 0x3F) as u8));
            self.buf.push(0x80 | ((u & 0x3F) as u8));
        }
        proof {
            assert(self@ =~= old(self)@ + encoding(Val::Char(v)));
        }
        Ok(())
    }

    /// A UTF-8 string: its bytes, preceded by their varint byte length.
    pub fn serialize_str(&mut self, v: &str) -> (r: Result<(), SerbfError>)
        ensures
            r is Ok,
            final(self)@ == old(self)@ + encoding(Val::Str(v@)),
    {
        let bytes: &[u8] = v.as_bytes();
        let n: usize = bytes.len();
        let _ = encode_uint(&mut self.buf, n as u64);
        append_bytes(&mut self.buf, bytes);
        proof {
            assert(self@ =~= old(self)@ + encoding(Val::Str(v@)));
        }
        Ok(())
    }

    /// A raw byte blob: the bytes, preceded by their varint byte length.
    pub fn serialize_bytes(&mut self, v: &[u8]) -> (r: Result<(), SerbfError>)
        ensures
            r is Ok,
            final(self)@ == old(self)@ + encoding(Val::Bytes(v@)),
    {
        let n: usize = v.len();
        let _ = encode_uint(&mut self.buf, n as u64);
        append_bytes(&mut self.buf, v);
        proof {
            assert(self@ =~= old(self)@ + encoding(Val::Bytes(v@)));
        }
        Ok(())
    }

    /// An absent optional: the single discriminant byte 0, no payload.
    pub fn serialize_none(&mut self) -> (r: Result<(), SerbfError>)
        ensures
            r is Ok,
            final(self)@ == old(self)@ + encoding(Val::Absent),
    {
        self.buf.push(0);
        proof {
            assert(self@ =~= old(self)@ + encoding(Val::Absent));
        }
        Ok(())
    }

    /// A present optional: the discriminant byte 1.  The payload's encoding
    /// follows through the caller's next node.
    pub fn serialize_some(&mut self) -> (r: Result<(), SerbfError>)
        ensures
            r is Ok,
            final(self)@ == old(self)@ + seq![1u8],
    {
        self.buf.push(1);
        proof {
            assert(self@ =~= old(self)@ + seq![1u8]);
        }
        Ok(())
    }

    /// The unit shape: zero bytes.
    pub fn serialize_unit(&mut self) -> (r: Result<(), SerbfError>)
        ensures
            r is Ok,
            final(self)@ == old(self)@,
    {
        Ok(())
    }

    /// A named marker type: encodes as unit, zero bytes.
    pub fn serialize_unit_struct(&mut self) -> (r: Result<(), SerbfError>)
        ensures
            r is Ok,
            final(self)@ == old(self)@,
    {
        self.serialize_unit()
    }

    /// A union variant selection: the varint variant index.  A non-unit
    /// variant's payload follows through the caller's next nodes.
    pub fn serialize_unit_variant(&mut self, variant_index: u32) -> (r: Result<(), SerbfError>)
        ensures
            r is Ok,
            final(self)@ == old(self)@ + varint_bytes(variant_index as nat),
    {
        encode_uint(&mut self.buf, variant_index as u64)
    }

    /// Opens a sequence of `len` elements: the varint element count.  The
    /// elements' encodings follow with no separators.
    pub fn serialize_seq(&mut self, len: usize) -> (r: Result<(), SerbfError>)
        ensures
            r is Ok,
            final(self)@ == old(self)@ + varint_bytes(len as nat),
    {
        encode_uint(&mut self.buf, len as u64)
    }

    /// Opens a map of `len` entries: the varint entry count.  Each key's
    /// encoding immediately followed by its value's follows.
    pub fn serialize_map(&mut self, len: usize) -> (r: Result<(), SerbfError>)
        ensures
            r is Ok,
            final(self)@ == old(self)@ + varint_bytes(len as nat),
    {
        encode_uint(&mut self.buf, len as u64)
    }

    /// Appends the whole encoding of `v`, walking its shape tree depth
    /// first, counts and discriminants before payloads.
    #[verifier::loop_isolation(false)]
    pub fn encode_value(&mut self, v: &Value) -> (r: Result<(), SerbfError>)
        ensures
            r is Ok,
            final(self)@ == old(self)@ + encoding(v@),
        decreases v,
    {
        match v {
            Value::Bool(b) => self.serialize_bool(*b),
            Value::U8(x) => self.serialize_u8(*x),
            Value::U16(x) => self.serialize_u16(*x),
            Value::U32(x) => self.serialize_u32(*x),
            Value::U64(x) => self.serialize_u64(*x),
            Value::U128(x) => self.serialize_u128(*x),
            Value::I8(x) => self.serialize_i8(*x),
            Value::I16(x) => self.serialize_i16(*x),
            Value::I32(x) => self.serialize_i32(*x),
            Value::I64(x) => self.serialize_i64(*x),
            Value::I128(x) => self.serialize_i128(*x),
            Value::Char(c) => self.serialize_char(*c),
            Value::Str(s) => self.serialize_str(s.as_str()),
            Value::Bytes(b) => self.serialize_bytes(b.as_slice()),
            Value::Unit => self.serialize_unit(),
            Value::Absent => self.serialize_none(),
            Value::Present(p) => {
                let _ = self.serialize_some();
                let r = self.encode_value(&**p);
                proof {
                    assert(self@ =~= old(self)@ + encoding(v@));
                }
                r
            },
            Value::Union(idx, p) => {
                let _ = encode_uint(&mut self.buf, *idx);
                let r = self.encode_value(&**p);
                proof {
                    assert(self@ =~= old(self)@ + encoding(v@));
                }
                r
            },
            Value::Sequence(es) => {
                let n: usize = es.len();
                let _ = self.serialize_seq(n);
                proof {
                    lemma_seq_val_of_len(es@, 0);
                }
                let ghost vs = seq_val_of(es@, 0);
                let mut i: usize = 0;
                while i < n
                    invariant
                        i <= n,
                        n == es@.len(),
                        vs == seq_val_of(es@, 0),
                        vs.len() == n,
                        forall|j: int| 0 <= j < n ==> vs[j] == val_of(es@[j]),
                        self@ + encoding_list(vs, i as int) =~= old(self)@ + varint_bytes(
                            n as nat,
                        ) + encoding_list(vs, 0),
                    decreases n - i,
                {
                    proof {
                        assert(decreases_to!(*es => es@));
                        assert(decreases_to!(es@ => es@[i as int]));
                    }
                    let r = self.encode_value(&es[i]);
                    i = i + 1;
                }
                proof {
                    assert(self@ =~= old(self)@ + encoding(v@));
                }
                Ok(())
            },
            Value::Tuple(es) => {
                let n: usize = es.len();
                proof {
                    lemma_seq_val_of_len(es@, 0);
                }
                let ghost vs = seq_val_of(es@, 0);
                let mut i: usize = 0;
                while i < n
                    invariant
                        i <= n,
                        n == es@.len(),
                        vs == seq_val_of(es@, 0),
                        vs.len() == n,
                        forall|j: int| 0 <= j < n ==> vs[j] == val_of(es@[j]),
                        self@ + encoding_list(vs, i as int) =~= old(self)@ + encoding_list(vs, 0),
                    decreases n - i,
                {
                    proof {
                        assert(decreases_to!(*es => es@));
                        assert(decreases_to!(es@ => es@[i as int]));
                    }
                    let r = self.encode_value(&es[i]);
                    i = i + 1;
                }
                proof {
                    assert(self@ =~= old(self)@ + encoding(v@));
                }
                Ok(())
            },
            Value::Record(es) => {
                let n: usize = es.len();
                proof {
                    lemma_seq_val_of_len(es@, 0);
                }
                let ghost vs = seq_val_of(es@, 0);
                let mut i: usize = 0;
                while i < n
                    invariant
                        i <= n,
                        n == es@.len(),
                        vs == seq_val_of(es@, 0),
                        vs.len() == n,
                        forall|j: int| 0 <= j < n ==> vs[j] == val_of(es@[j]),
                        self@ + encoding_list(vs, i as int) =~= old(self)@ + encoding_list(vs, 0),
                    decreases n - i,
                {
                    proof {
                        assert(decreases_to!(*es => es@));
                        assert(decreases_to!(es@ => es@[i as int]));
                    }
                    let r = self.encode_value(&es[i]);
                    i = i + 1;
                }
                proof {
                    assert(self@ =~= old(self)@ + encoding(v@));
                }
                Ok(())
            },
            Value::Dict(ps) => {
                let n: usize = ps.len();
                let _ = self.serialize_map(n);
                proof {
                    lemma_pairs_val_of_len(ps@, 0);
                }
                let ghost pvs = pairs_val_of(ps@, 0);
                let mut i: usize = 0;
                while i < n
                    invariant
                        i <= n,
                        n == ps@.len(),
                        pvs == pairs_val_of(ps@, 0),
                        pvs.len() == n,
                        forall|j: int|
                            0 <= j < n ==> #[trigger] pvs[j] == (
                            val_of(ps@[j].0),
                            val_of(ps@[j].1),
                            ),
                        self@ + encoding_pairs(pvs, i as int) =~= old(self)@ + varint_bytes(
                            n as nat,
                        ) + encoding_pairs(pvs, 0),
                    decreases n - i,
                {
                    proof {
                        assert(decreases_to!(*ps => ps@));
                        assert(decreases_to!(ps@ => ps@[i as int]));
                    }
                    let pair = &ps[i];
                    let _ = self.encode_value(&pair.0);
                    let _ = self.encode_value(&pair.1);
                    i = i + 1;
                }
                proof {
                    assert(self@ =~= old(self)@ + encoding(v@));
                }
                Ok(())
            },
        }
    }
}

} // verus!
