//! Variable-length integer encoding: unsigned LEB128-style groups of seven
//! bits, and a zigzag mapping for signed values.
//!
//! The codec is write-only: the emitted files are read by an external
//! component, so only the encoders are executable. The reference decoders
//! exist as specification functions, and the round-trip laws are proved
//! against them.

use vstd::prelude::*;

verus! {

/// The varint encoding of `v`: 7-bit groups, least significant first, the
/// high bit set on every byte except the last.
pub open spec fn varint_enc(v: nat) -> Seq<u8>
    decreases v,
{
    if v < 128 {
        seq![v as u8]
    } else {
        seq![(v % 128 + 128) as u8] + varint_enc(v / 128)
    }
}

/// Reference decoder for `varint_enc`, as a specification only: the value of
/// a byte sequence read as a varint (an empty or truncated sequence reads as
/// far as it can).
pub open spec fn varint_dec(s: Seq<u8>) -> nat
    decreases s.len(),
{
    if s.len() == 0 {
        0
    } else if s[0] < 128 {
        s[0] as nat
    } else {
        (s[0] - 128) as nat + 128 * varint_dec(s.skip(1))
    }
}

/// The zigzag mapping from signed to unsigned: non-negative `v` maps to
/// `2v`, negative `v` to `-2v - 1`, interleaving signs so small magnitudes
/// stay small.
pub open spec fn zigzag(v: i64) -> nat {
    if v >= 0 {
        (2 * (v as int)) as nat
    } else {
        ((-2) * (v as int) - 1) as nat
    }
}

/// Inverse of the zigzag mapping.
pub open spec fn unzigzag(n: nat) -> int {
    if n % 2 == 0 {
        (n / 2) as int
    } else {
        -1 - ((n - 1) / 2)
    }
}

/// Round trip of the unsigned codec: decoding an encoded value returns the
/// value, whatever bytes follow the encoding.
pub proof fn lemma_varint_round_trip(v: nat)
    ensures
        varint_dec(varint_enc(v)) == v,
    decreases v,
{
    if v < 128 {
    } else {
        lemma_varint_round_trip(v / 128);
        assert(varint_enc(v).skip(1) =~= varint_enc(v / 128));
    }
}

/// Round trip of the zigzag mapping.
pub proof fn lemma_zigzag_round_trip(v: i64)
    ensures
        unzigzag(zigzag(v)) == v as int,
{
}

/// Round trip of the signed codec: varint-decoding then un-zigzagging the
/// signed encoding returns the original value.
pub proof fn lemma_signed_varint_round_trip(v: i64)
    ensures
        unzigzag(varint_dec(varint_enc(zigzag(v)))) == v as int,
{
    lemma_varint_round_trip(zigzag(v));
    lemma_zigzag_round_trip(v);
}

/// Appends the varint encoding of `value` to `out`.
pub fn write_varint(out: &mut Vec<u8>, value: u128)
    ensures
        final(out)@ == old(out)@ + varint_enc(value as nat),
{
    let mut val = value;
    loop
        invariant_except_break
            old(out)@ + varint_enc(value as nat) == out@ + varint_enc(val as nat),
        ensures
            out@ == old(out)@ + varint_enc(value as nat),
        decreases val,
    {
        let byte = (val % 128) as u8;
        let rest = val / 128;
        proof {
            if rest == 0 {
                assert(out@ + varint_enc(val as nat) =~= out@ + seq![byte]);
            } else {
                assert(out@ + varint_enc(val as nat) =~= (out@ + seq![(byte + 128) as u8])
                    + varint_enc(rest as nat));
            }
        }
        if rest == 0 {
            out.push(byte);
            break;
        } else {
            out.push(byte | 0x80);
            assert(byte | 0x80 == byte + 128) by (bit_vector)
                requires byte < 128;
            val = rest;
        }
    }
}

/// Appends the signed varint encoding of `value` to `out`: the varint of the
/// zigzag mapping of `value`.
pub fn write_signed_varint(out: &mut Vec<u8>, value: i64)
    ensures
        final(out)@ == old(out)@ + varint_enc(zigzag(value)),
{
    let encoded: u64 = if value >= 0 {
        (value as u64) * 2
    } else {
        ((-(value + 1)) as u64) * 2 + 1
    };
    assert(encoded as nat == zigzag(value));
    write_varint(out, encoded as u128);
}

} // verus!
