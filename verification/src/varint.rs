//! Variable-length unsigned integer codec.
//!
//! Counts and discriminants are written as groups of 7 bits, least-significant
//! group first, one group per byte.  Every byte except the last has its
//! continuation bit (bit 7) set.

use vstd::prelude::*;

use crate::error::SerbfError;

verus! {

/// The encoding of `n`: 7 bits per byte, least-significant group first,
/// continuation bit set on every byte but the last.
pub open spec fn varint_bytes(n: nat) -> Seq<u8>
    decreases n,
{
    if n < 128 {
        seq![n as u8]
    } else {
        seq![(128 + n % 128) as u8] + varint_bytes(n / 128)
    }
}

/// True when `s` begins with a complete varint: some byte without the
/// continuation bit is reached before the sequence ends.
pub open spec fn varint_terminated(s: Seq<u8>) -> bool
    decreases s.len(),
{
    s.len() > 0 && (s[0] < 128 || varint_terminated(s.drop_first()))
}

/// The value of the varint at the front of `s` (meaningful when
/// `varint_terminated(s)` holds).
pub open spec fn varint_value(s: Seq<u8>) -> nat
    decreases s.len(),
{
    if s.len() == 0 {
        0
    } else if s[0] < 128 {
        s[0] as nat
    } else {
        (s[0] - 128) as nat + 128 * varint_value(s.drop_first())
    }
}

/// The number of bytes of the varint at the front of `s` (meaningful when
/// `varint_terminated(s)` holds).
pub open spec fn varint_size(s: Seq<u8>) -> nat
    decreases s.len(),
{
    if s.len() == 0 {
        0
    } else if s[0] < 128 {
        1
    } else {
        1 + varint_size(s.drop_first())
    }
}

/// A sequence consisting only of continuation bytes holds no complete varint.
pub proof fn lemma_all_continuation_not_terminated(s: Seq<u8>)
    requires
        forall|i: int| 0 <= i < s.len() ==> s[i] >= 128,
    ensures
        !varint_terminated(s),
    decreases s.len(),
{
    if s.len() > 0 {
        lemma_all_continuation_not_terminated(s.drop_first());
    }
}

/// Dropping leading continuation bytes can only decrease the decoded value.
pub proof fn lemma_varint_value_monotone(s: Seq<u8>, k: int)
    requires
        0 <= k <= s.len(),
        forall|i: int| 0 <= i < k ==> s[i] >= 128,
    ensures
        varint_value(s) >= varint_value(s.skip(k)),
    decreases k,
{
    if k == 0 {
        assert(s.skip(0) =~= s);
    } else {
        assert(s.drop_first().skip(k - 1) =~= s.skip(k));
        lemma_varint_value_monotone(s.drop_first(), k - 1);
    }
}

/// Shape of the encoding: at least one byte, every byte except the last has
/// its continuation bit set, and the last does not.
pub proof fn lemma_varint_bytes_shape(n: nat)
    ensures
        varint_bytes(n).len() >= 1,
        varint_bytes(n)[varint_bytes(n).len() - 1] < 128,
        forall|i: int| 0 <= i < varint_bytes(n).len() - 1 ==> varint_bytes(n)[i] >= 128,
    decreases n,
{
    if n >= 128 {
        lemma_varint_bytes_shape(n / 128);
    }
}

/// A terminated varint occupies at least one byte and no more than the
/// whole sequence.
pub broadcast proof fn lemma_varint_size_bound(s: Seq<u8>)
    ensures
        #[trigger] varint_terminated(s) ==> 1 <= varint_size(s) <= s.len(),
    decreases s.len(),
{
    if s.len() > 0 && s[0] >= 128 {
        lemma_varint_size_bound(s.drop_first());
    }
}

/// The encoding of `n`, followed by anything, parses back to `n` and consumes
/// exactly the encoding.
pub proof fn lemma_varint_round_trip(n: nat, rest: Seq<u8>)
    ensures
        varint_terminated(varint_bytes(n) + rest),
        varint_value(varint_bytes(n) + rest) == n,
        varint_size(varint_bytes(n) + rest) == varint_bytes(n).len(),
    decreases n,
{
    let s = varint_bytes(n) + rest;
    if n < 128 {
        assert(s[0] == n as u8);
    } else {
        assert(s[0] == (128 + n % 128) as u8);
        assert(s.drop_first() =~= varint_bytes(n / 128) + rest);
        lemma_varint_round_trip(n / 128, rest);
    }
}

/// A truncated encoding holds no complete varint.
pub proof fn lemma_varint_truncated(n: nat, j: int)
    requires
        0 <= j < varint_bytes(n).len(),
    ensures
        !varint_terminated(varint_bytes(n).take(j)),
{
    lemma_varint_bytes_shape(n);
    let t = varint_bytes(n).take(j);
    assert(forall|i: int| 0 <= i < t.len() ==> t[i] >= 128);
    lemma_all_continuation_not_terminated(t);
}

/// Appends the varint encoding of `value` to `sink`.
pub fn encode_uint(sink: &mut Vec<u8>, value: u64) -> (r: Result<(), SerbfError>)
    ensures
        r is Ok,
        final(sink)@ == old(sink)@ + varint_bytes(value as nat),
{
    let mut x: u64 = value;
    while x >= 128
        invariant
            old(sink)@ + varint_bytes(value as nat) =~= sink@ + varint_bytes(x as nat),
        decreases x,
    {
        let b: u8 = (x % 128 + 128) as u8;
        sink.push(b);
        proof {
            assert(varint_bytes(x as nat) == seq![b] + varint_bytes((x as nat) / 128));
        }
        x = x / 128;
    }
    sink.push(x as u8);
    proof {
        assert(varint_bytes(x as nat) =~= seq![x as u8]);
        assert(sink@ =~= old(sink)@ + varint_bytes(value as nat));
    }
    Ok(())
}

/// Reads the varint starting at index `start` of `data`.
///
/// On success returns the value together with the index just past the varint.
/// Fails with [`SerbfError::Io`] when the buffer ends before a terminating
/// byte, and also when the encoded value does not fit in 64 bits.
pub fn decode_uint(data: &Vec<u8>, start: usize) -> (r: Result<(u64, usize), SerbfError>)
    requires
        start <= data@.len(),
    ensures
        ({
            let rem = data@.skip(start as int);
            &&& (varint_terminated(rem) && varint_value(rem) < 0x1_0000_0000_0000_0000)
                <==> r is Ok
            &&& r matches Ok(p) ==> p.0 as nat == varint_value(rem) && p.1 == start + varint_size(
                rem,
            ) && p.1 <= data@.len()
            &&& r is Err ==> r == Err::<(u64, usize), SerbfError>(SerbfError::Io)
        }),
{
    let ghost rem = data@.skip(start as int);
    let len: usize = data.len();
    let mut t: usize = start;
    while t < len && data[t] >= 128
        invariant
            start <= t <= len,
            len == data@.len(),
            forall|m: int| start <= m < t ==> data@[m] >= 128,
        decreases len - t,
    {
        t = t + 1;
    }
    if t == len {
        proof {
            assert(forall|i: int| 0 <= i < rem.len() ==> rem[i] >= 128);
            lemma_all_continuation_not_terminated(rem);
        }
        return Err(SerbfError::Io);
    }
    let mut val: u64 = data[t] as u64;
    let mut j: usize = t;
    proof {
        assert(rem.skip((t - start) as int)[0] == data@[t as int]);
        assert(rem.skip((t - start) as int).len() == len - t);
    }
    while j > start
        invariant
            start <= j <= t,
            t < len,
            len == data@.len(),
            rem == data@.skip(start as int),
            forall|m: int| start <= m < t ==> data@[m] >= 128,
            data@[t as int] < 128,
            varint_terminated(rem.skip((j - start) as int)),
            val as nat == varint_value(rem.skip((j - start) as int)),
            varint_size(rem.skip((j - start) as int)) == t + 1 - j,
        decreases j,
    {
        j = j - 1;
        let b: u8 = data[j];
        let low: u64 = (b - 128) as u64;
        let nv: u128 = (val as u128) * 128 + (low as u128);
        proof {
            let cur = rem.skip((j - start) as int);
            assert(cur[0] == data@[j as int]);
            assert(cur.drop_first() =~= rem.skip((j - start + 1) as int));
        }
        if nv > u64::MAX as u128 {
            proof {
                lemma_varint_value_monotone(rem, (j - start) as int);
            }
            return Err(SerbfError::Io);
        }
        val = nv as u64;
    }
    proof {
        assert(rem.skip(0) =~= rem);
    }
    Ok((val, t + 1))
}

} // verus!
