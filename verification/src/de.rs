//! The decoder: a depth-first walker that consumes a value's encoding from
//! an owned byte cursor.
//!
//! The decoder never infers shapes: an external schema-driven traversal
//! tells it which primitive or composite to expect next, and it consumes the
//! matching bytes.  Every method's outcome, value and cursor movement alike,
//! is exactly what [`crate::wire::decoding`] prescribes for the bytes under
//! the cursor.

use vstd::prelude::*;

use crate::error::SerbfError;
use crate::fixed::{i128_from_rep, i16_from_rep, i32_from_rep, i64_from_rep, i8_from_rep, le_val,
    lemma_le_val_bound, lemma_pow256_monotone, lemma_pow256_values, pow256};
use crate::value::{pairs_val_of, seq_val_of, lemma_pairs_val_of_push, lemma_seq_val_of_push,
    Shape, Val, Value};
use crate::varint::{varint_size, varint_terminated, varint_value};
use crate::wire::{decoding, decoding_count, decoding_entries, decoding_members};
use vstd::utf8::{decode_utf8, valid_utf8};

verus! {

broadcast use crate::wire::lemma_decoding_consumed, crate::wire::lemma_decoding_count_consumed,
    crate::wire::lemma_decoding_members_consumed, crate::wire::lemma_decoding_entries_consumed,
    crate::varint::lemma_varint_size_bound;

#[verifier::external_type_specification]
#[verifier::external_body]
pub struct ExFromUtf8Error(std::string::FromUtf8Error);

/// Relies on `String::from_utf8`: it succeeds exactly when the input bytes
/// are valid UTF-8, and then returns the string made of those bytes, whose
/// characters are their UTF-8 decoding.
pub assume_specification[ String::from_utf8 ](v: Vec<u8>) -> (r: Result<
    String,
    std::string::FromUtf8Error,
>)
    ensures
        r is Ok <==> valid_utf8(v@),
        r matches Ok(s) ==> s@ == decode_utf8(v@) && vstd::utf8::encode_utf8(s@) == v@,
;

/// An owned fixed-length input buffer with a mutable read position,
/// together with the decoder that consumes it.
///
/// Each successful read advances the position by exactly the bytes it
/// consumed; a read past the end is a terminal failure for the decode.  The
/// buffer is owned exclusively by one decoder and never written.
#[derive(Clone)]
pub struct SerbfDeserializer {
    data: Vec<u8>,
    pos: usize,
}

impl SerbfDeserializer {
    /// The read position never passes the end of the buffer.
    pub closed spec fn wf(&self) -> bool {
        self.pos <= self.data@.len()
    }

    /// The bytes not yet consumed.
    pub closed spec fn rem(&self) -> Seq<u8> {
        self.data@.skip(self.pos as int)
    }

    /// A decoder over `data`, positioned at its first byte.
    pub fn new(data: Vec<u8>) -> (r: Self)
        ensures
            r.wf(),
            r.rem() == data@,
    {
        let r = SerbfDeserializer { data, pos: 0 };
        proof {
            assert(r.rem() =~= r.data@);
        }
        r
    }

    /// Reads exactly `n` raw bytes, or fails with `Io` leaving the cursor
    /// where it was.
    fn read_chunk(&mut self, n: usize) -> (r: Result<Vec<u8>, SerbfError>)
        requires
            old(self).wf(),
        ensures
            final(self).wf(),
            old(self).rem().len() >= n ==> (r matches Ok(v) && v@ == old(self).rem().take(
                n as int,
            ) && final(self).rem() == old(self).rem().skip(n as int)),
            old(self).rem().len() < n ==> r == Err::<Vec<u8>, SerbfError>(SerbfError::Io) && final(self).rem() == old(self).rem(),
    {
        let dlen: usize = self.data.len();
        if n > dlen - self.pos {
            return Err(SerbfError::Io);
        }
        let mut out: Vec<u8> = Vec::new();
        let mut i: usize = 0;
        while i < n
            invariant
                i <= n,
                dlen == self.data@.len(),
                self.pos + n <= dlen,
                self == old(self),
                out@ =~= old(self).rem().take(n as int).take(i as int),
            decreases n - i,
        {
            let b: u8 = self.data[self.pos + i];
            out.push(b);
            proof {
                let t = old(self).rem().take(n as int);
                assert(t.take(i + 1) =~= t.take(i as int).push(t[i as int]));
            }
            i = i + 1;
        }
        self.pos = self.pos + n;
        proof {
            let pre = old(self).rem();
            assert(pre.take(n as int).take(n as int) =~= pre.take(n as int));
            assert(self.rem() =~= pre.skip(n as int));
        }
        Ok(out)
    }

    /// Reads the varint at the cursor.  Fails with `Io` when the buffer ends
    /// before a terminating byte, and when the value does not fit in 64
    /// bits; the cursor then stays where it was.
    pub fn read_uint(&mut self) -> (r: Result<u64, SerbfError>)
        requires
            old(self).wf(),
        ensures
            final(self).wf(),
            (varint_terminated(old(self).rem()) && varint_value(old(self).rem())
                < 0x1_0000_0000_0000_0000) <==> r is Ok,
            r matches Ok(x) ==> x as nat == varint_value(old(self).rem()) && varint_size(
                old(self).rem(),
            ) <= old(self).rem().len() && final(self).rem() == old(self).rem().skip(
                varint_size(old(self).rem()) as int,
            ),
            r is Err ==> r == Err::<u64, SerbfError>(SerbfError::Io) && final(self).rem() == old(self).rem(),
    {
        match crate::varint::decode_uint(&self.data, self.pos) {
            Ok((x, np)) => {
                proof {
                    let pre = self.data@.skip(self.pos as int);
                    assert(self.data@.skip(
                        self.pos + varint_size(pre) as int,
                    ) =~= pre.skip(varint_size(pre) as int));
                }
                self.pos = np;
                Ok(x)
            },
            Err(e) => Err(e),
        }
    }

    /// Reads an `n`-byte little-endian unsigned value, `n` at most 16.
    fn read_le(&mut self, n: usize) -> (r: Result<u128, SerbfError>)
        requires
            old(self).wf(),
            1 <= n <= 16,
        ensures
            final(self).wf(),
            old(self).rem().len() >= n ==> (r matches Ok(x) && x as nat == le_val(
                old(self).rem().take(n as int),
            ) && final(self).rem() == old(self).rem().skip(n as int)),
            old(self).rem().len() < n ==> r == Err::<u128, SerbfError>(SerbfError::Io) && final(self).rem() == old(self).rem(),
    {
        let chunk = match self.read_chunk(n) {
            Ok(c) => c,
            Err(e) => {
                return Err(e);
            },
        };
        let ghost c = chunk@;
        let mut val: u128 = 0;
        let mut j: usize = n;
        proof {
            lemma_pow256_values();
            assert(c.skip(n as int) =~= Seq::<u8>::empty());
        }
        while j > 0
            invariant
                j <= n <= 16,
                c.len() == n,
                chunk@ == c,
                val as nat == le_val(c.skip(j as int)),
            decreases j,
        {
            j = j - 1;
            let b: u8 = chunk[j];
            proof {
                let cur = c.skip(j as int);
                assert(cur[0] == c[j as int]);
                assert(cur.drop_first() =~= c.skip(j + 1));
                lemma_le_val_bound(c.skip(j + 1));
                lemma_pow256_monotone((n - j - 1) as nat, 15);
                lemma_pow256_values();
                assert(pow256(16) == 256 * pow256(15));
            }
            val = val * 256 + (b as u128);
        }
        proof {
            assert(c.skip(0) =~= c);
        }
        Ok(val)
    }

    /// A boolean: one byte, 0 for false, 1 for true; anything else is an
    /// invalid discriminant.
    pub fn deserialize_bool(&mut self) -> (r: Result<bool, SerbfError>)
        requires
            old(self).wf(),
        ensures
            final(self).wf(),
            match decoding(old(self).rem(), Shape::Bool) {
                Ok(p) => r matches Ok(b) && Val::Bool(b) == p.0 && final(self).rem() == old(self).rem().skip(p.1 as int),
                Err(e) => r matches Err(e2) && e2 == e,
            },
    {
        let chunk = match self.read_chunk(1) {
            Ok(c) => c,
            Err(e) => {
                return Err(e);
            },
        };
        let b: u8 = chunk[0];
        proof {
            assert(chunk@[0] == old(self).rem()[0]);
        }
        if b == 0 {
            Ok(false)
        } else if b == 1 {
            Ok(true)
        } else {
            Err(SerbfError::InvalidDiscriminant)
        }
    }

    pub fn deserialize_u8(&mut self) -> (r: Result<u8, SerbfError>)
        requires
            old(self).wf(),
        ensures
            final(self).wf(),
            match decoding(old(self).rem(), Shape::U8) {
                Ok(p) => r matches Ok(x) && Val::U8(x) == p.0 && final(self).rem() == old(self).rem().skip(p.1 as int),
                Err(e) => r matches Err(e2) && e2 == e,
            },
    {
        proof {
            lemma_le_val_bound(old(self).rem().take(1));
            lemma_pow256_values();
        }
        match self.read_le(1) {
            Ok(x) => Ok(x as u8),
            Err(e) => Err(e),
        }
    }

    pub fn deserialize_u16(&mut self) -> (r: Result<u16, SerbfError>)
        requires
            old(self).wf(),
        ensures
            final(self).wf(),
            match decoding(old(self).rem(), Shape::U16) {
                Ok(p) => r matches Ok(x) && Val::U16(x) == p.0 && final(self).rem() == old(self).rem().skip(p.1 as int),
                Err(e) => r matches Err(e2) && e2 == e,
            },
    {
        proof {
            lemma_le_val_bound(old(self).rem().take(2));
            lemma_pow256_values();
        }
        match self.read_le(2) {
            Ok(x) => Ok(x as u16),
            Err(e) => Err(e),
        }
    }

    pub fn deserialize_u32(&mut self) -> (r: Result<u32, SerbfError>)
        requires
            old(self).wf(),
        ensures
            final(self).wf(),
            match decoding(old(self).rem(), Shape::U32) {
                Ok(p) => r matches Ok(x) && Val::U32(x) == p.0 && final(self).rem() == old(self).rem().skip(p.1 as int),
                Err(e) => r matches Err(e2) && e2 == e,
            },
    {
        proof {
            lemma_le_val_bound(old(self).rem().take(4));
            lemma_pow256_values();
        }
        match self.read_le(4) {
            Ok(x) => Ok(x as u32),
            Err(e) => Err(e),
        }
    }

    pub fn deserialize_u64(&mut self) -> (r: Result<u64, SerbfError>)
        requires
            old(self).wf(),
        ensures
            final(self).wf(),
            match decoding(old(self).rem(), Shape::U64) {
                Ok(p) => r matches Ok(x) && Val::U64(x) == p.0 && final(self).rem() == old(self).rem().skip(p.1 as int),
                Err(e) => r matches Err(e2) && e2 == e,
            },
    {
        proof {
            lemma_le_val_bound(old(self).rem().take(8));
            lemma_pow256_values();
        }
        match self.read_le(8) {
            Ok(x) => Ok(x as u64),
            Err(e) => Err(e),
        }
    }

    pub fn deserialize_u128(&mut self) -> (r: Result<u128, SerbfError>)
        requires
            old(self).wf(),
        ensures
            final(self).wf(),
            match decoding(old(self).rem(), Shape::U128) {
                Ok(p) => r matches Ok(x) && Val::U128(x) == p.0 && final(self).rem() == old(self).rem().skip(p.1 as int),
                Err(e) => r matches Err(e2) && e2 == e,
            },
    {
        self.read_le(16)
    }

    pub fn deserialize_i8(&mut self) -> (r: Result<i8, SerbfError>)
        requires
            old(self).wf(),
        ensures
            final(self).wf(),
            match decoding(old(self).rem(), Shape::I8) {
                Ok(p) => r matches Ok(x) && Val::I8(x) == p.0 && final(self).rem() == old(self).rem().skip(p.1 as int),
                Err(e) => r matches Err(e2) && e2 == e,
            },
    {
        proof {
            lemma_le_val_bound(old(self).rem().take(1));
            lemma_pow256_values();
        }
        match self.read_le(1) {
            Ok(x) => Ok(i8_from_rep(x as u8)),
            Err(e) => Err(e),
        }
    }

    pub fn deserialize_i16(&mut self) -> (r: Result<i16, SerbfError>)
        requires
            old(self).wf(),
        ensures
            final(self).wf(),
            match decoding(old(self).rem(), Shape::I16) {
                Ok(p) => r matches Ok(x) && Val::I16(x) == p.0 && final(self).rem() == old(self).rem().skip(p.1 as int),
                Err(e) => r matches Err(e2) && e2 == e,
            },
    {
        proof {
            lemma_le_val_bound(old(self).rem().take(2));
            lemma_pow256_values();
        }
        match self.read_le(2) {
            Ok(x) => Ok(i16_from_rep(x as u16)),
            Err(e) => Err(e),
        }
    }

    pub fn deserialize_i32(&mut self) -> (r: Result<i32, SerbfError>)
        requires
            old(self).wf(),
        ensures
            final(self).wf(),
            match decoding(old(self).rem(), Shape::I32) {
                Ok(p) => r matches Ok(x) && Val::I32(x) == p.0 && final(self).rem() == old(self).rem().skip(p.1 as int),
                Err(e) => r matches Err(e2) && e2 == e,
            },
    {
        proof {
            lemma_le_val_bound(old(self).rem().take(4));
            lemma_pow256_values();
        }
        match self.read_le(4) {
            Ok(x) => Ok(i32_from_rep(x as u32)),
            Err(e) => Err(e),
        }
    }

    pub fn deserialize_i64(&mut self) -> (r: Result<i64, SerbfError>)
        requires
            old(self).wf(),
        ensures
            final(self).wf(),
            match decoding(old(self).rem(), Shape::I64) {
                Ok(p) => r matches Ok(x) && Val::I64(x) == p.0 && final(self).rem() == old(self).rem().skip(p.1 as int),
                Err(e) => r matches Err(e2) && e2 == e,
            },
    {
        proof {
            lemma_le_val_bound(old(self).rem().take(8));
            lemma_pow256_values();
        }
        match self.read_le(8) {
            Ok(x) => Ok(i64_from_rep(x as u64)),
            Err(e) => Err(e),
        }
    }

    pub fn deserialize_i128(&mut self) -> (r: Result<i128, SerbfError>)
        requires
            old(self).wf(),
        ensures
            final(self).wf(),
            match decoding(old(self).rem(), Shape::I128) {
                Ok(p) => r matches Ok(x) && Val::I128(x) == p.0 && final(self).rem() == old(self).rem().skip(p.1 as int),
                Err(e) => r matches Err(e2) && e2 == e,
            },
    {
        match self.read_le(16) {
            Ok(x) => Ok(i128_from_rep(x)),
            Err(e) => Err(e),
        }
    }

    /// The common front of the three varint-length-prefixed shapes: reads
    /// the byte length, then that many raw bytes.
    fn read_prefixed(&mut self) -> (r: Result<Vec<u8>, SerbfError>)
        requires
            old(self).wf(),
        ensures
            final(self).wf(),
            ({
                let pre = old(self).rem();
                let ok = varint_terminated(pre) && varint_value(pre) < 0x1_0000_0000_0000_0000
                    && pre.skip(varint_size(pre) as int).len() >= varint_value(pre);
                &&& ok <==> r is Ok
                &&& r matches Ok(v) ==> v@ == pre.skip(varint_size(pre) as int).take(
                    varint_value(pre) as int,
                ) && final(self).rem() == pre.skip((varint_size(pre) + varint_value(pre)) as int)
                &&& r is Err ==> r == Err::<Vec<u8>, SerbfError>(SerbfError::Io)
            }),
    {
        let len = match self.read_uint() {
            Ok(x) => x,
            Err(e) => {
                return Err(e);
            },
        };
        let avail: usize = self.data.len() - self.pos;
        if len > avail as u64 {
            return Err(SerbfError::Io);
        }
        let ghost mid = self.rem();
        let chunk = match self.read_chunk(len as usize) {
            Ok(c) => c,
            Err(e) => {
                return Err(e);
            },
        };
        proof {
            let pre = old(self).rem();
            let k = varint_size(pre) as int;
            assert(mid.skip(len as int) =~= pre.skip(k + len));
        }
        Ok(chunk)
    }

    /// A UTF-8 string: varint byte length, then that many bytes, which must
    /// be valid UTF-8.
    pub fn deserialize_string(&mut self) -> (r: Result<String, SerbfError>)
        requires
            old(self).wf(),
        ensures
            final(self).wf(),
            match decoding(old(self).rem(), Shape::Str) {
                Ok(p) => r matches Ok(s) && Val::Str(s@) == p.0 && final(self).rem() == old(self).rem().skip(p.1 as int),
                Err(e) => r matches Err(e2) && e2 == e,
            },
    {
        let chunk = match self.read_prefixed() {
            Ok(c) => c,
            Err(e) => {
                return Err(e);
            },
        };
        match String::from_utf8(chunk) {
            Ok(s) => Ok(s),
            Err(_) => Err(SerbfError::InvalidUtf8),
        }
    }

    /// Same as [`Self::deserialize_string`]; the borrowed and owned string
    /// shapes share one wire form.
    pub fn deserialize_str(&mut self) -> (r: Result<String, SerbfError>)
        requires
            old(self).wf(),
        ensures
            final(self).wf(),
            match decoding(old(self).rem(), Shape::Str) {
                Ok(p) => r matches Ok(s) && Val::Str(s@) == p.0 && final(self).rem() == old(self).rem().skip(p.1 as int),
                Err(e) => r matches Err(e2) && e2 == e,
            },
    {
        self.deserialize_string()
    }

    /// A single Unicode scalar value: a varint-length-prefixed UTF-8
    /// payload; the first of its characters is returned.  An empty payload
    /// is `InvalidChar`, malformed bytes are `InvalidUtf8`.
    pub fn deserialize_char(&mut self) -> (r: Result<char, SerbfError>)
        requires
            old(self).wf(),
        ensures
            final(self).wf(),
            match decoding(old(self).rem(), Shape::Char) {
                Ok(p) => r matches Ok(c) && Val::Char(c) == p.0 && final(self).rem() == old(self).rem().skip(p.1 as int),
                Err(e) => r matches Err(e2) && e2 == e,
            },
    {
        let chunk = match self.read_prefixed() {
            Ok(c) => c,
            Err(e) => {
                return Err(e);
            },
        };
        let s = match String::from_utf8(chunk) {
            Ok(s) => s,
            Err(_) => {
                return Err(SerbfError::InvalidUtf8);
            },
        };
        let mut it = s.as_str().chars();
        match it.next() {
            Some(c) => Ok(c),
            None => Err(SerbfError::InvalidChar),
        }
    }

    /// A raw byte blob: varint byte length, then that many bytes.
    pub fn deserialize_bytes(&mut self) -> (r: Result<Vec<u8>, SerbfError>)
        requires
            old(self).wf(),
        ensures
            final(self).wf(),
            match decoding(old(self).rem(), Shape::Bytes) {
                Ok(p) => r matches Ok(b) && Val::Bytes(b@) == p.0 && final(self).rem() == old(self).rem().skip(p.1 as int),
                Err(e) => r matches Err(e2) && e2 == e,
            },
    {
        self.read_prefixed()
    }

    /// Same as [`Self::deserialize_bytes`]; the borrowed and owned blob
    /// shapes share one wire form.
    pub fn deserialize_byte_buf(&mut self) -> (r: Result<Vec<u8>, SerbfError>)
        requires
            old(self).wf(),
        ensures
            final(self).wf(),
            match decoding(old(self).rem(), Shape::Bytes) {
                Ok(p) => r matches Ok(b) && Val::Bytes(b@) == p.0 && final(self).rem() == old(self).rem().skip(p.1 as int),
                Err(e) => r matches Err(e2) && e2 == e,
            },
    {
        self.read_prefixed()
    }

    /// The optional discriminant: exactly one byte, 1 meaning a payload
    /// follows, 0 meaning absent; anything else is an invalid discriminant.
    pub fn deserialize_option(&mut self) -> (r: Result<bool, SerbfError>)
        requires
            old(self).wf(),
        ensures
            final(self).wf(),
            old(self).rem().len() == 0 ==> r == Err::<bool, SerbfError>(SerbfError::Io),
            old(self).rem().len() >= 1 ==> ({
                let b = old(self).rem()[0];
                if b == 0 {
                    r == Ok::<bool, SerbfError>(false) && final(self).rem() == old(self).rem().skip(1)
                } else if b == 1 {
                    r == Ok::<bool, SerbfError>(true) && final(self).rem() == old(self).rem().skip(
                        1,
                    )
                } else {
                    r == Err::<bool, SerbfError>(SerbfError::InvalidDiscriminant)
                }
            }),
    {
        let chunk = match self.read_chunk(1) {
            Ok(c) => c,
            Err(e) => {
                return Err(e);
            },
        };
        let b: u8 = chunk[0];
        proof {
            assert(chunk@[0] == old(self).rem()[0]);
        }
        if b == 0 {
            Ok(false)
        } else if b == 1 {
            Ok(true)
        } else {
            Err(SerbfError::InvalidDiscriminant)
        }
    }

    /// The unit shape: zero bytes are read.
    pub fn deserialize_unit(&mut self) -> (r: Result<(), SerbfError>)
        requires
            old(self).wf(),
        ensures
            final(self).wf(),
            r is Ok,
            final(self).rem() == old(self).rem(),
    {
        Ok(())
    }

    /// Opens a sequence: reads the varint element count.  The caller then
    /// requests exactly that many element decodes.
    pub fn deserialize_seq(&mut self) -> (r: Result<u64, SerbfError>)
        requires
            old(self).wf(),
        ensures
            final(self).wf(),
            (varint_terminated(old(self).rem()) && varint_value(old(self).rem())
                < 0x1_0000_0000_0000_0000) <==> r is Ok,
            r matches Ok(x) ==> x as nat == varint_value(old(self).rem()) && final(self).rem()
                == old(self).rem().skip(varint_size(old(self).rem()) as int),
            r is Err ==> r == Err::<u64, SerbfError>(SerbfError::Io),
    {
        self.read_uint()
    }

    /// Opens a map: reads the varint entry count.  The caller then requests
    /// that many key/value decode pairs.
    pub fn deserialize_map(&mut self) -> (r: Result<u64, SerbfError>)
        requires
            old(self).wf(),
        ensures
            final(self).wf(),
            (varint_terminated(old(self).rem()) && varint_value(old(self).rem())
                < 0x1_0000_0000_0000_0000) <==> r is Ok,
            r matches Ok(x) ==> x as nat == varint_value(old(self).rem()) && final(self).rem()
                == old(self).rem().skip(varint_size(old(self).rem()) as int),
            r is Err ==> r == Err::<u64, SerbfError>(SerbfError::Io),
    {
        self.read_uint()
    }


    /// Decodes `n` consecutive elements of shape `elem`.
    #[verifier::loop_isolation(false)]
    fn decode_count(&mut self, elem: &Shape, n: u64) -> (r: Result<Vec<Value>, SerbfError>)
        requires
            old(self).wf(),
        ensures
            final(self).wf(),
            match decoding_count(old(self).rem(), *elem, n as nat) {
                Ok(q) => r matches Ok(vs) && seq_val_of(vs@, 0) == q.0 && final(self).rem() == old(
                    self,
                ).rem().skip(q.1 as int),
                Err(e) => r matches Err(e2) && e2 == e,
            },
        decreases elem, 2int, n,
    {
        let ghost rem0 = old(self).rem();
        let ghost target = decoding_count(rem0, *elem, n as nat);
        let mut out: Vec<Value> = Vec::new();
        let ghost mut used: nat = 0nat;
        let mut i: u64 = 0;
        while i < n
            invariant
                self.wf(),
                i <= n,
                used <= rem0.len(),
                self.rem() == rem0.skip(used as int),
                seq_val_of(out@, 0).len() == i as nat,
                match target {
                    Ok(q0) => decoding_count(self.rem(), *elem, (n - i) as nat) matches Ok(q)
                        && q0.0 == seq_val_of(out@, 0) + q.0 && q0.1 == used + q.1,
                    Err(e0) => decoding_count(self.rem(), *elem, (n - i) as nat) == Err::<
                        (Seq<Val>, nat),
                        SerbfError,
                    >(e0),
                },
            decreases n - i,
        {
            let ghost pre = self.rem();
            match self.decode_value(elem) {
                Ok(v) => {
                    proof {
                        let p = decoding(pre, *elem)->Ok_0;
                        assert(pre.len() == rem0.len() - used);
                        lemma_seq_val_of_push(out@, v);
                        assert(rem0.skip(used as int).skip(p.1 as int) =~= rem0.skip(
                            (used + p.1) as int,
                        ));
                        used = used + p.1;
                    }
                    out.push(v);
                    i = i + 1;
                },
                Err(e) => {
                    return Err(e);
                },
            }
        }
        proof {
            assert(seq_val_of(out@, 0) + Seq::<Val>::empty() =~= seq_val_of(out@, 0));
        }
        Ok(out)
    }

    /// Decodes the members of a tuple or record, one per declared shape, in
    /// declaration order, with no count read from the stream.
    #[verifier::loop_isolation(false)]
    fn decode_members(&mut self, shapes: &Vec<Shape>) -> (r: Result<Vec<Value>, SerbfError>)
        requires
            old(self).wf(),
        ensures
            final(self).wf(),
            match decoding_members(old(self).rem(), shapes@, 0) {
                Ok(q) => r matches Ok(vs) && seq_val_of(vs@, 0) == q.0 && final(self).rem() == old(
                    self,
                ).rem().skip(q.1 as int),
                Err(e) => r matches Err(e2) && e2 == e,
            },
        decreases shapes, 0int, 0int,
    {
        let ghost rem0 = old(self).rem();
        let ghost target = decoding_members(rem0, shapes@, 0);
        let n: usize = shapes.len();
        let mut out: Vec<Value> = Vec::new();
        let ghost mut used: nat = 0nat;
        let mut i: usize = 0;
        while i < n
            invariant
                self.wf(),
                i <= n,
                used <= rem0.len(),
                self.rem() == rem0.skip(used as int),
                seq_val_of(out@, 0).len() == i as nat,
                match target {
                    Ok(q0) => decoding_members(self.rem(), shapes@, i as int) matches Ok(q) && q0.0
                        == seq_val_of(out@, 0) + q.0 && q0.1 == used + q.1,
                    Err(e0) => decoding_members(self.rem(), shapes@, i as int) == Err::<
                        (Seq<Val>, nat),
                        SerbfError,
                    >(e0),
                },
            decreases n - i,
        {
            let ghost pre = self.rem();
            proof {
                assert(decreases_to!(*shapes => shapes@));
                assert(decreases_to!(shapes@ => shapes@[i as int]));
            }
            match self.decode_value(&shapes[i]) {
                Ok(v) => {
                    proof {
                        let p = decoding(pre, shapes@[i as int])->Ok_0;
                        assert(pre.len() == rem0.len() - used);
                        lemma_seq_val_of_push(out@, v);
                        assert(rem0.skip(used as int).skip(p.1 as int) =~= rem0.skip(
                            (used + p.1) as int,
                        ));
                        used = used + p.1;
                    }
                    out.push(v);
                    i = i + 1;
                },
                Err(e) => {
                    return Err(e);
                },
            }
        }
        proof {
            assert(seq_val_of(out@, 0) + Seq::<Val>::empty() =~= seq_val_of(out@, 0));
        }
        Ok(out)
    }

    /// Decodes `n` key/value entries of a map, each key decode immediately
    /// followed by its value decode.
    #[verifier::loop_isolation(false)]
    fn decode_entries(
        &mut self,
        ks: &Shape,
        vsh: &Shape,
        n: u64,
        Ghost(owner): Ghost<Shape>,
    ) -> (r: Result<Vec<(Value, Value)>, SerbfError>)
        requires
            old(self).wf(),
            owner is Dict,
            *owner->Dict_0 == *ks,
            *owner->Dict_1 == *vsh,
        ensures
            final(self).wf(),
            match decoding_entries(old(self).rem(), owner, n as nat) {
                Ok(q) => r matches Ok(ps) && pairs_val_of(ps@, 0) == q.0 && final(self).rem()
                    == old(self).rem().skip(q.1 as int),
                Err(e) => r matches Err(e2) && e2 == e,
            },
        decreases owner, 0int, n,
    {
        let ghost rem0 = old(self).rem();
        let ghost target = decoding_entries(rem0, owner, n as nat);
        let mut out: Vec<(Value, Value)> = Vec::new();
        let ghost mut used: nat = 0nat;
        let mut i: u64 = 0;
        while i < n
            invariant
                self.wf(),
                i <= n,
                used <= rem0.len(),
                self.rem() == rem0.skip(used as int),
                pairs_val_of(out@, 0).len() == i as nat,
                match target {
                    Ok(q0) => decoding_entries(self.rem(), owner, (n - i) as nat) matches Ok(q)
                        && q0.0 == pairs_val_of(out@, 0) + q.0 && q0.1 == used + q.1,
                    Err(e0) => decoding_entries(self.rem(), owner, (n - i) as nat) == Err::<
                        (Seq<(Val, Val)>, nat),
                        SerbfError,
                    >(e0),
                },
            decreases n - i,
        {
            let ghost pre = self.rem();
            proof {
                assert(decreases_to!(owner => *owner->Dict_0));
                assert(decreases_to!(owner => *owner->Dict_1));
            }
            let kv = match self.decode_value(ks) {
                Ok(v) => v,
                Err(e) => {
                    return Err(e);
                },
            };
            let ghost midk = self.rem();
            let vv = match self.decode_value(vsh) {
                Ok(v) => v,
                Err(e) => {
                    return Err(e);
                },
            };
            proof {
                let p1 = decoding(pre, *ks)->Ok_0;
                let p2 = decoding(midk, *vsh)->Ok_0;
                assert(pre.len() == rem0.len() - used);
                lemma_pairs_val_of_push(out@, kv, vv);
                assert(pre.skip(p1.1 as int).skip(p2.1 as int) =~= pre.skip((p1.1 + p2.1) as int));
                assert(rem0.skip(used as int).skip((p1.1 + p2.1) as int) =~= rem0.skip(
                    (used + p1.1 + p2.1) as int,
                ));
                used = used + p1.1 + p2.1;
            }
            out.push((kv, vv));
            i = i + 1;
        }
        proof {
            assert(pairs_val_of(out@, 0) + Seq::<(Val, Val)>::empty() =~= pairs_val_of(out@, 0));
        }
        Ok(out)
    }

    /// Selects a union variant: reads the varint variant index.  The chosen
    /// variant's payload decode follows through the caller's next nodes; the
    /// caller must reject an index at or beyond its declared variant count.
    pub fn select_variant(&mut self) -> (r: Result<u64, SerbfError>)
        requires
            old(self).wf(),
        ensures
            final(self).wf(),
            (varint_terminated(old(self).rem()) && varint_value(old(self).rem())
                < 0x1_0000_0000_0000_0000) <==> r is Ok,
            r matches Ok(x) ==> x as nat == varint_value(old(self).rem()) && final(self).rem()
                == old(self).rem().skip(varint_size(old(self).rem()) as int),
            r is Err ==> r == Err::<u64, SerbfError>(SerbfError::Io),
    {
        self.read_uint()
    }

    /// Decodes one whole value of the declared shape `s`, composites
    /// included, consuming exactly its encoding.
    #[verifier::loop_isolation(false)]
    #[verifier::rlimit(100)]
    pub fn decode_value(&mut self, s: &Shape) -> (r: Result<Value, SerbfError>)
        requires
            old(self).wf(),
        ensures
            final(self).wf(),
            match decoding(old(self).rem(), *s) {
                Ok(p) => r matches Ok(v) && v@ == p.0 && final(self).rem() == old(self).rem().skip(p.1 as int),
                Err(e) => r matches Err(e2) && e2 == e,
            },
        decreases s, 1int, 0int,
    {
        match s {
            Shape::Bool => match self.deserialize_bool() {
                Ok(x) => Ok(Value::Bool(x)),
                Err(e) => Err(e),
            },
            Shape::U8 => match self.deserialize_u8() {
                Ok(x) => Ok(Value::U8(x)),
                Err(e) => Err(e),
            },
            Shape::U16 => match self.deserialize_u16() {
                Ok(x) => Ok(Value::U16(x)),
                Err(e) => Err(e),
            },
            Shape::U32 => match self.deserialize_u32() {
                Ok(x) => Ok(Value::U32(x)),
                Err(e) => Err(e),
            },
            Shape::U64 => match self.deserialize_u64() {
                Ok(x) => Ok(Value::U64(x)),
                Err(e) => Err(e),
            },
            Shape::U128 => match self.deserialize_u128() {
                Ok(x) => Ok(Value::U128(x)),
                Err(e) => Err(e),
            },
            Shape::I8 => match self.deserialize_i8() {
                Ok(x) => Ok(Value::I8(x)),
                Err(e) => Err(e),
            },
            Shape::I16 => match self.deserialize_i16() {
                Ok(x) => Ok(Value::I16(x)),
                Err(e) => Err(e),
            },
            Shape::I32 => match self.deserialize_i32() {
                Ok(x) => Ok(Value::I32(x)),
                Err(e) => Err(e),
            },
            Shape::I64 => match self.deserialize_i64() {
                Ok(x) => Ok(Value::I64(x)),
                Err(e) => Err(e),
            },
            Shape::I128 => match self.deserialize_i128() {
                Ok(x) => Ok(Value::I128(x)),
                Err(e) => Err(e),
            },
            Shape::Char => match self.deserialize_char() {
                Ok(x) => Ok(Value::Char(x)),
                Err(e) => Err(e),
            },
            Shape::Str => match self.deserialize_string() {
                Ok(x) => Ok(Value::Str(x)),
                Err(e) => Err(e),
            },
            Shape::Bytes => match self.deserialize_bytes() {
                Ok(x) => Ok(Value::Bytes(x)),
                Err(e) => Err(e),
            },
            Shape::Unit => {
                proof {
                    assert(old(self).rem().skip(0) =~= old(self).rem());
                }
                Ok(Value::Unit)
            },
            Shape::Optional(inner) => match self.deserialize_option() {
                Err(e) => Err(e),
                Ok(false) => {
                    Ok(Value::Absent)
                },
                Ok(true) => {
                    let ghost mid = self.rem();
                    match self.decode_value(&**inner) {
                        Ok(v) => {
                            proof {
                                let pre = old(self).rem();
                                let p = decoding(mid, **inner)->Ok_0;
                                assert(mid.skip(p.1 as int) =~= pre.skip(1 + p.1 as int));
                            }
                            Ok(Value::Present(Box::new(v)))
                        },
                        Err(e) => Err(e),
                    }
                },
            },
            Shape::Sequence(inner) => {
                let n = match self.deserialize_seq() {
                    Ok(x) => x,
                    Err(e) => {
                        return Err(e);
                    },
                };
                let ghost mid = self.rem();
                match self.decode_count(&**inner, n) {
                    Ok(out) => {
                        proof {
                            let pre = old(self).rem();
                            let k = varint_size(pre) as int;
                            let q = decoding_count(mid, **inner, n as nat)->Ok_0;
                            assert(mid.skip(q.1 as int) =~= pre.skip(k + q.1));
                        }
                        Ok(Value::Sequence(out))
                    },
                    Err(e) => Err(e),
                }
            },
            Shape::Tuple(ss) => {
                match self.decode_members(ss) {
                    Ok(out) => Ok(Value::Tuple(out)),
                    Err(e) => Err(e),
                }
            },
            Shape::Record(ss) => {
                match self.decode_members(ss) {
                    Ok(out) => Ok(Value::Record(out)),
                    Err(e) => Err(e),
                }
            },
            Shape::Union(vs) => {
                let idx = match self.read_uint() {
                    Ok(x) => x,
                    Err(e) => {
                        return Err(e);
                    },
                };
                if idx >= vs.len() as u64 {
                    return Err(SerbfError::InvalidDiscriminant);
                }
                let ghost mid = self.rem();
                proof {
                    assert(decreases_to!(*vs => vs@));
                    assert(decreases_to!(vs@ => vs@[idx as int]));
                }
                match self.decode_value(&vs[idx as usize]) {
                    Ok(v) => {
                        proof {
                            let pre = old(self).rem();
                            let k = varint_size(pre) as int;
                            let p = decoding(mid, vs@[idx as int])->Ok_0;
                            assert(mid.skip(p.1 as int) =~= pre.skip(k + p.1));
                        }
                        Ok(Value::Union(idx, Box::new(v)))
                    },
                    Err(e) => Err(e),
                }
            },
            Shape::Dict(ks, vsh) => {
                let n = match self.deserialize_map() {
                    Ok(x) => x,
                    Err(e) => {
                        return Err(e);
                    },
                };
                let ghost mid = self.rem();
                match self.decode_entries(&**ks, &**vsh, n, Ghost(*s)) {
                    Ok(out) => {
                        proof {
                            let pre = old(self).rem();
                            let k = varint_size(pre) as int;
                            let q = decoding_entries(mid, *s, n as nat)->Ok_0;
                            assert(mid.skip(q.1 as int) =~= pre.skip(k + q.1));
                        }
                        Ok(Value::Dict(out))
                    },
                    Err(e) => Err(e),
                }
            },
        }
    }
}

/// Drives the element-by-element iteration of one sequence, tuple or map
/// being decoded: it owes the caller exactly the declared number of
/// elements, and signals the end once they have all been requested.
pub struct SerbfSeqDeserializer {
    len: u64,
    current_index: u64,
}

impl SerbfSeqDeserializer {
    /// The declared element count.
    pub closed spec fn declared_len(&self) -> u64 {
        self.len
    }

    /// How many elements have been requested so far.
    pub closed spec fn position(&self) -> u64 {
        self.current_index
    }

    /// An iteration over `len` elements, none requested yet.
    pub fn new(len: u64) -> (r: Self)
        ensures
            r.declared_len() == len,
            r.position() == 0,
    {
        SerbfSeqDeserializer { len, current_index: 0 }
    }

    /// True when another element is owed; beyond the declared count it
    /// signals end-of-sequence instead.
    pub fn next_element(&mut self) -> (more: bool)
        ensures
            final(self).declared_len() == old(self).declared_len(),
            more == (old(self).position() < old(self).declared_len()),
            more ==> final(self).position() == old(self).position() + 1,
            !more ==> final(self).position() == old(self).position(),
    {
        if self.current_index < self.len {
            self.current_index = self.current_index + 1;
            true
        } else {
            false
        }
    }

    /// The declared element count, always known in this format.
    pub fn size_hint(&self) -> (r: Option<u64>)
        ensures
            r == Some(self.declared_len()),
    {
        Some(self.len)
    }
}

} // verus!
