//! Fixed-width little-endian integer encoding.
//!
//! Every fixed-width numeric shape is written least-significant byte first,
//! with a width determined solely by its declared type.  Signed values travel
//! as their two's-complement unsigned representative of the same width.

use vstd::prelude::*;

verus! {

/// 256 raised to the power `n`: the number of values `n` bytes can hold.
pub open spec fn pow256(n: nat) -> nat
    decreases n,
{
    if n == 0 {
        1
    } else {
        256 * pow256((n - 1) as nat)
    }
}

/// The `n`-byte little-endian encoding of `x` (`x` is taken modulo 256^n).
pub open spec fn le_bytes(x: nat, n: nat) -> Seq<u8>
    decreases n,
{
    if n == 0 {
        Seq::empty()
    } else {
        seq![(x % 256) as u8] + le_bytes(x / 256, (n - 1) as nat)
    }
}

/// The value of a little-endian byte sequence.
pub open spec fn le_val(s: Seq<u8>) -> nat
    decreases s.len(),
{
    if s.len() == 0 {
        0
    } else {
        s[0] as nat + 256 * le_val(s.drop_first())
    }
}

pub proof fn lemma_pow256_pos(n: nat)
    ensures
        pow256(n) >= 1,
    decreases n,
{
    if n > 0 {
        lemma_pow256_pos((n - 1) as nat);
    }
}

pub proof fn lemma_le_bytes_len(x: nat, n: nat)
    ensures
        le_bytes(x, n).len() == n,
    decreases n,
{
    if n > 0 {
        lemma_le_bytes_len(x / 256, (n - 1) as nat);
    }
}

pub proof fn lemma_le_val_bound(s: Seq<u8>)
    ensures
        le_val(s) < pow256(s.len()),
    decreases s.len(),
{
    if s.len() > 0 {
        lemma_le_val_bound(s.drop_first());
    }
}

/// Decoding inverts encoding for every value that fits in `n` bytes.
pub proof fn lemma_le_round_trip(x: nat, n: nat)
    requires
        x < pow256(n),
    ensures
        le_val(le_bytes(x, n)) == x,
    decreases n,
{
    if n > 0 {
        let s = le_bytes(x, n);
        assert(x / 256 < pow256((n - 1) as nat)) by {
            assert(x < 256 * pow256((n - 1) as nat));
        };
        assert(s.drop_first() =~= le_bytes(x / 256, (n - 1) as nat));
        lemma_le_round_trip(x / 256, (n - 1) as nat);
    }
}

/// Byte `i` of the encoding holds bits `8*i .. 8*i+8` of the value.
pub proof fn lemma_le_bytes_index(x: nat, n: nat, i: int)
    requires
        0 <= i < n,
    ensures
        le_bytes(x, n)[i] == ((x / pow256(i as nat)) % 256) as u8,
    decreases n,
{
    lemma_le_bytes_len(x, n);
    lemma_le_bytes_len(x / 256, (n - 1) as nat);
    if i > 0 {
        lemma_le_bytes_index(x / 256, (n - 1) as nat, i - 1);
        lemma_pow256_pos((i - 1) as nat);
        vstd::arithmetic::div_mod::lemma_div_denominator(
            x as int,
            256,
            pow256((i - 1) as nat) as int,
        );
        assert(256 * pow256((i - 1) as nat) == pow256(i as nat));
    } else {
        vstd::arithmetic::div_mod::lemma_div_basics(x as int);
    }
}

/// The numeric values of the powers of 256 used for the supported widths.
pub proof fn lemma_pow256_values()
    ensures
        pow256(1) == 0x100,
        pow256(2) == 0x1_0000,
        pow256(4) == 0x1_0000_0000,
        pow256(8) == 0x1_0000_0000_0000_0000,
        pow256(16) == 0x1_0000_0000_0000_0000_0000_0000_0000_0000,
{
    reveal_with_fuel(pow256, 17);
}

pub proof fn lemma_pow256_monotone(a: nat, b: nat)
    requires
        a <= b,
    ensures
        pow256(a) <= pow256(b),
    decreases b,
{
    if a < b {
        lemma_pow256_monotone(a, (b - 1) as nat);
        assert(pow256((b - 1) as nat) <= 256 * pow256((b - 1) as nat));
    }
}

/// The unsigned representative of a signed value: two's complement of the
/// same width.
pub open spec fn rep_i8(x: i8) -> nat {
    if x >= 0 {
        x as nat
    } else {
        (x + 0x100) as nat
    }
}

pub open spec fn i8_of_rep(n: nat) -> i8
    recommends
        n < 0x100,
{
    if n < 0x80 {
        n as i8
    } else {
        (n - 0x100) as i8
    }
}

pub open spec fn rep_i16(x: i16) -> nat {
    if x >= 0 {
        x as nat
    } else {
        (x + 0x1_0000) as nat
    }
}

pub open spec fn i16_of_rep(n: nat) -> i16
    recommends
        n < 0x1_0000,
{
    if n < 0x8000 {
        n as i16
    } else {
        (n - 0x1_0000) as i16
    }
}

pub open spec fn rep_i32(x: i32) -> nat {
    if x >= 0 {
        x as nat
    } else {
        (x + 0x1_0000_0000) as nat
    }
}

pub open spec fn i32_of_rep(n: nat) -> i32
    recommends
        n < 0x1_0000_0000,
{
    if n < 0x8000_0000 {
        n as i32
    } else {
        (n - 0x1_0000_0000) as i32
    }
}

pub open spec fn rep_i64(x: i64) -> nat {
    if x >= 0 {
        x as nat
    } else {
        (x + 0x1_0000_0000_0000_0000) as nat
    }
}

pub open spec fn i64_of_rep(n: nat) -> i64
    recommends
        n < 0x1_0000_0000_0000_0000,
{
    if n < 0x8000_0000_0000_0000 {
        n as i64
    } else {
        (n - 0x1_0000_0000_0000_0000) as i64
    }
}

pub open spec fn rep_i128(x: i128) -> nat {
    if x >= 0 {
        x as nat
    } else {
        (x + 0x1_0000_0000_0000_0000_0000_0000_0000_0000) as nat
    }
}

pub open spec fn i128_of_rep(n: nat) -> i128
    recommends
        n < 0x1_0000_0000_0000_0000_0000_0000_0000_0000,
{
    if n < 0x8000_0000_0000_0000_0000_0000_0000_0000 {
        n as i128
    } else {
        (n - 0x1_0000_0000_0000_0000_0000_0000_0000_0000) as i128
    }
}

/// Every signed value round-trips through its unsigned representative.
pub proof fn lemma_rep_round_trip()
    ensures
        forall|x: i8| #![all_triggers] rep_i8(x) < 0x100 && i8_of_rep(rep_i8(x)) == x,
        forall|x: i16| #![all_triggers] rep_i16(x) < 0x1_0000 && i16_of_rep(rep_i16(x)) == x,
        forall|x: i32| #![all_triggers] rep_i32(x) < 0x1_0000_0000 && i32_of_rep(rep_i32(x)) == x,
        forall|x: i64|
            #![all_triggers]
            rep_i64(x) < 0x1_0000_0000_0000_0000 && i64_of_rep(rep_i64(x)) == x,
        forall|x: i128|
            #![all_triggers]
            rep_i128(x) < 0x1_0000_0000_0000_0000_0000_0000_0000_0000 && i128_of_rep(rep_i128(x))
                == x,
{
}

pub fn i8_to_rep(x: i8) -> (r: u8)
    ensures
        r as nat == rep_i8(x),
{
    if x >= 0 {
        x as u8
    } else {
        ((x as i16) + 0x100) as u8
    }
}

pub fn i8_from_rep(r: u8) -> (x: i8)
    ensures
        x == i8_of_rep(r as nat),
{
    if r < 0x80 {
        r as i8
    } else {
        ((r as i16) - 0x100) as i8
    }
}

pub fn i16_to_rep(x: i16) -> (r: u16)
    ensures
        r as nat == rep_i16(x),
{
    if x >= 0 {
        x as u16
    } else {
        ((x as i32) + 0x1_0000) as u16
    }
}

pub fn i16_from_rep(r: u16) -> (x: i16)
    ensures
        x == i16_of_rep(r as nat),
{
    if r < 0x8000 {
        r as i16
    } else {
        ((r as i32) - 0x1_0000) as i16
    }
}

pub fn i32_to_rep(x: i32) -> (r: u32)
    ensures
        r as nat == rep_i32(x),
{
    if x >= 0 {
        x as u32
    } else {
        ((x as i64) + 0x1_0000_0000) as u32
    }
}

pub fn i32_from_rep(r: u32) -> (x: i32)
    ensures
        x == i32_of_rep(r as nat),
{
    if r < 0x8000_0000 {
        r as i32
    } else {
        ((r as i64) - 0x1_0000_0000) as i32
    }
}

pub fn i64_to_rep(x: i64) -> (r: u64)
    ensures
        r as nat == rep_i64(x),
{
    if x >= 0 {
        x as u64
    } else {
        ((x as i128) + 0x1_0000_0000_0000_0000) as u64
    }
}

pub fn i64_from_rep(r: u64) -> (x: i64)
    ensures
        x == i64_of_rep(r as nat),
{
    if r < 0x8000_0000_0000_0000 {
        r as i64
    } else {
        ((r as i128) - 0x1_0000_0000_0000_0000) as i64
    }
}

pub fn i128_to_rep(x: i128) -> (r: u128)
    ensures
        r as nat == rep_i128(x),
{
    if x >= 0 {
        x as u128
    } else {
        (((x + i128::MAX) + 1) as u128) + 0x8000_0000_0000_0000_0000_0000_0000_0000u128
    }
}

pub fn i128_from_rep(r: u128) -> (x: i128)
    ensures
        x == i128_of_rep(r as nat),
{
    if r < 0x8000_0000_0000_0000_0000_0000_0000_0000 {
        r as i128
    } else {
        ((r - 0x8000_0000_0000_0000_0000_0000_0000_0000u128) as i128) + i128::MIN
    }
}

/// Appends the `n`-byte little-endian encoding of `x` to `sink`.
pub fn write_le(sink: &mut Vec<u8>, x: u128, n: usize) -> (r: Result<(), crate::error::SerbfError>)
    requires
        (x as nat) < pow256(n as nat),
    ensures
        r is Ok,
        final(sink)@ == old(sink)@ + le_bytes(x as nat, n as nat),
{
    let mut v: u128 = x;
    let mut i: usize = 0;
    while i < n
        invariant
            i <= n,
            old(sink)@ + le_bytes(x as nat, n as nat) =~= sink@ + le_bytes(
                v as nat,
                (n - i) as nat,
            ),
        decreases n - i,
    {
        let b: u8 = (v % 256) as u8;
        sink.push(b);
        proof {
            assert(le_bytes(v as nat, (n - i) as nat) == seq![b] + le_bytes(
                (v as nat) / 256,
                (n - i - 1) as nat,
            ));
        }
        v = v / 256;
        i = i + 1;
    }
    proof {
        assert(le_bytes(v as nat, 0) =~= Seq::<u8>::empty());
        assert(sink@ =~= old(sink)@ + le_bytes(x as nat, n as nat));
    }
    Ok(())
}

} // verus!
