//! The two integer encodings of a delta patch.
//!
//! Both are little-endian base-128 with the high bit of a byte marking that another byte follows. The
//! *size* encoding spends one bit of its first byte on a sign, so that byte carries six value bits.

use vstd::prelude::*;

verus! {

/// The unsigned encoding: seven value bits per byte, least significant group first.
pub open spec fn uvarint(m: nat) -> Seq<u8>
    decreases m,
{
    if m < 128 {
        seq![m as u8]
    } else {
        seq![(128 + m % 128) as u8] + uvarint(m / 128)
    }
}

/// The signed *size* encoding: six value bits and the sign (`0x40`) in the first byte, then the
/// remaining magnitude as [`uvarint`].
pub open spec fn size_bytes(v: int) -> Seq<u8> {
    let sign: int = if v < 0 { 64 } else { 0 };
    let m: int = if v < 0 { -v } else { v };
    if m < 64 {
        seq![(sign + m) as u8]
    } else {
        seq![(128 + sign + m % 64) as u8] + uvarint((m / 64) as nat)
    }
}

/// Reads one [`uvarint`] from the front of `s`: its value and the number of bytes it takes. There is no
/// value if `s` ends first.
pub open spec fn read_uvarint(s: Seq<u8>) -> Option<(nat, nat)>
    decreases s.len(),
{
    if s.len() == 0 {
        None
    } else if s[0] < 128 {
        Some((s[0] as nat, 1))
    } else {
        match read_uvarint(s.skip(1)) {
            Some((hi, n)) => Some(((s[0] - 128 + 128 * hi) as nat, n + 1)),
            None => None,
        }
    }
}

/// Reads one signed size from the front of `s`: its value and the number of bytes it takes. There is no
/// value if `s` ends first.
pub open spec fn read_size(s: Seq<u8>) -> Option<(int, nat)> {
    if s.len() == 0 {
        None
    } else {
        let low: int = s[0] as int % 64;
        let negative: bool = (s[0] as int / 64) % 2 == 1;
        if s[0] < 128 {
            Some((if negative { -low } else { low }, 1))
        } else {
            match read_uvarint(s.skip(1)) {
                Some((hi, n)) => Some(
                    (if negative { -(low + 64 * hi) } else { low + 64 * hi }, n + 1),
                ),
                None => None,
            }
        }
    }
}

/// An unsigned encoding is never empty.
pub proof fn lemma_uvarint_len(m: nat)
    ensures
        uvarint(m).len() >= 1,
{
}

/// A value that was read took at least one byte, and no more than there are.
pub proof fn lemma_read_uvarint_len(s: Seq<u8>)
    ensures
        read_uvarint(s) matches Some((v, n)) ==> 1 <= n <= s.len(),
    decreases s.len(),
{
    if s.len() > 0 && s[0] >= 128 {
        lemma_read_uvarint_len(s.skip(1));
    }
}

/// Reading back an unsigned encoding gives the value and its length, whatever follows it.
pub proof fn lemma_read_uvarint(m: nat, rest: Seq<u8>)
    ensures
        read_uvarint(uvarint(m) + rest) == Some((m, uvarint(m).len())),
    decreases m,
{
    let s = uvarint(m) + rest;
    if m < 128 {
        assert(s[0] == m as u8);
    } else {
        lemma_read_uvarint(m / 128, rest);
        assert(s[0] == (128 + m % 128) as u8);
        assert(s.skip(1) =~= uvarint(m / 128) + rest);
    }
}

/// Reading back a size gives the value and its length, whatever follows it.
pub proof fn lemma_read_size(v: int, rest: Seq<u8>)
    ensures
        read_size(size_bytes(v) + rest) == Some((v, size_bytes(v).len())),
        size_bytes(v).len() >= 1,
{
    let s = size_bytes(v) + rest;
    let sign: int = if v < 0 { 64 } else { 0 };
    let m: int = if v < 0 { -v } else { v };
    if m < 64 {
        assert(s[0] == (sign + m) as u8);
    } else {
        let hi = (m / 64) as nat;
        assert(s[0] == (128 + sign + m % 64) as u8);
        assert(s.skip(1) =~= uvarint(hi) + rest);
        lemma_read_uvarint(hi, rest);
        lemma_uvarint_len(hi);
    }
}

/// A size that was read took at least one byte, and no more than there are.
pub proof fn lemma_read_size_len(s: Seq<u8>)
    ensures
        read_size(s) matches Some((v, n)) ==> 1 <= n <= s.len(),
{
    if s.len() > 0 {
        lemma_read_uvarint_len(s.skip(1));
    }
}

/// What is still to be written when `byte` holds the group at hand and `v` the groups above it.
spec fn pending(byte: int, v: nat) -> Seq<u8> {
    if v == 0 {
        seq![byte as u8]
    } else {
        seq![(128 + byte) as u8] + uvarint(v)
    }
}

proof fn lemma_pending_step(byte: int, v: nat)
    requires
        v > 0,
    ensures
        pending(byte, v) == seq![(128 + byte) as u8] + pending((v % 128) as int, v / 128),
{
    assert(uvarint(v) =~= pending((v % 128) as int, v / 128));
}

/// The size encoding of `value`.
pub fn pack_size(value: i64) -> (out: Vec<u8>)
    requires
        value > i64::MIN,
    ensures
        out@ == size_bytes(value as int),
{
    if value < 0 {
        pack_difference(0, (-value) as u64)
    } else {
        pack_difference(value as u64, 0)
    }
}

/// The size encoding of `a - b`: the lengths and offsets in a patch.
pub fn pack_difference(a: u64, b: u64) -> (out: Vec<u8>)
    ensures
        out@ == size_bytes(a - b),
{
    let ghost value: int = a - b;
    let sign: u8 = if a < b { 0x40 } else { 0 };
    let magnitude: u64 = if a < b { b - a } else { a - b };
    let mut out: Vec<u8> = Vec::new();
    let mut byte: u8 = sign + (magnitude % 64) as u8;
    let mut v: u64 = magnitude / 64;
    assert(size_bytes(value) =~= pending(byte as int, v as nat));
    while v > 0
        invariant
            byte < 128,
            value == a - b,
            size_bytes(value) == out@ + pending(byte as int, v as nat),
        decreases v,
    {
        proof {
            lemma_pending_step(byte as int, v as nat);
        }
        let ghost before = out@;
        out.push(128 + byte);
        byte = (v % 128) as u8;
        v = v / 128;
        assert(out@ + pending(byte as int, v as nat) =~= before + (seq![out@.last()] + pending(
            byte as int,
            v as nat,
        )));
    }
    out.push(byte);
    out
}

/// The unsigned encoding of `value`: the segment lengths of the compressed stream.
pub fn crle_pack_size(value: u64) -> (out: Vec<u8>)
    ensures
        out@ == uvarint(value as nat),
{
    let mut out: Vec<u8> = Vec::new();
    let mut byte: u8 = (value % 128) as u8;
    let mut v: u64 = value / 128;
    assert(uvarint(value as nat) =~= pending(byte as int, v as nat));
    while v > 0
        invariant
            byte < 128,
            uvarint(value as nat) == out@ + pending(byte as int, v as nat),
        decreases v,
    {
        proof {
            lemma_pending_step(byte as int, v as nat);
        }
        let ghost before = out@;
        out.push(128 + byte);
        byte = (v % 128) as u8;
        v = v / 128;
        assert(out@ + pending(byte as int, v as nat) =~= before + (seq![out@.last()] + pending(
            byte as int,
            v as nat,
        )));
    }
    out.push(byte);
    out
}

} // verus!
