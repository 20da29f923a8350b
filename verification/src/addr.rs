//! The unified 128-bit address space, and parsing of decimal address fields.
//!
//! Every range is stored and compared in 128-bit form; a 32-bit address is
//! embedded as `0xFFFF` in bits 32..48 followed by the 32-bit value in the
//! low bits (the standard IPv4-in-IPv6 mapping).

use vstd::prelude::*;

verus! {

/// The first address of the region that 32-bit addresses map into.
pub open spec fn ipv4_region_base() -> nat {
    0xffff_0000_0000
}

/// Where a 32-bit address lands in the unified space.
pub open spec fn ipv4_mapped(ipv4: u32) -> u128 {
    (ipv4_region_base() + ipv4) as u128
}

/// Maps a 32-bit address into the unified 128-bit space.
pub fn ipv4_to_ipv6(ipv4: u32) -> (r: u128)
    ensures
        r == ipv4_mapped(ipv4),
{
    let r = (0xffffu128 << 32) | ipv4 as u128;
    assert((0xffffu128 << 32) | (ipv4 as u128) == 0xffff_0000_0000u128 + (ipv4 as u128))
        by (bit_vector);
    r
}

/// The mapping lands exactly in the designated region: the bits above the
/// low 32 always read `0xFFFF`, and the low 32 bits are the original
/// address. In particular `0` maps with low 32 bits zero, `0xFFFFFFFF`
/// with low 32 bits all ones, and every mapped value lies in the region's
/// 2^32 addresses.
pub proof fn lemma_ipv4_mapping(ipv4: u32)
    ensures
        ipv4_mapped(ipv4) as nat / 0x1_0000_0000 == 0xffff,
        ipv4_mapped(ipv4) as nat % 0x1_0000_0000 == ipv4,
        ipv4_region_base() <= ipv4_mapped(ipv4) < ipv4_region_base() + 0x1_0000_0000,
{
    assert(ipv4_mapped(ipv4) as nat / 0x1_0000_0000 == 0xffff) by (nonlinear_arith)
        requires ipv4_mapped(ipv4) as nat == 0xffff_0000_0000 + ipv4 && ipv4 < 0x1_0000_0000;
    assert(ipv4_mapped(ipv4) as nat % 0x1_0000_0000 == ipv4) by (nonlinear_arith)
        requires ipv4_mapped(ipv4) as nat == 0xffff_0000_0000 + ipv4 && ipv4 < 0x1_0000_0000;
}

/// What a parsed address field denotes in the unified space: 32-bit fields
/// are mapped into the IPv4 region (after truncation to 32 bits), 128-bit
/// fields stand as they are.
pub open spec fn unified_spec(v: nat, is_v4: bool) -> u128 {
    if is_v4 {
        ipv4_mapped((v % 0x1_0000_0000) as u32)
    } else {
        v as u128
    }
}

/// Brings a parsed address field into the unified space.
pub fn unify_address(v: u128, is_v4: bool) -> (r: u128)
    ensures
        r == unified_spec(v as nat, is_v4),
{
    if is_v4 {
        ipv4_to_ipv6((v % 0x1_0000_0000) as u32)
    } else {
        v
    }
}

/// Whether every character of `s` is a decimal digit.
pub open spec fn all_digits(s: Seq<char>) -> bool {
    forall|i: int| 0 <= i < s.len() ==> '0' <= #[trigger] s[i] <= '9'
}

/// The value of a sequence of decimal digits, most significant first.
pub open spec fn dec_val(s: Seq<char>) -> nat
    decreases s.len(),
{
    if s.len() == 0 {
        0
    } else {
        dec_val(s.drop_last()) * 10 + (s.last() as u32 - '0' as u32) as nat
    }
}

/// `s` with every leading quote character removed.
pub open spec fn trim_leading_quotes(s: Seq<char>) -> Seq<char>
    decreases s.len(),
{
    if s.len() > 0 && s[0] == '"' {
        trim_leading_quotes(s.skip(1))
    } else {
        s
    }
}

/// `s` with every trailing quote character removed.
pub open spec fn trim_trailing_quotes(s: Seq<char>) -> Seq<char>
    decreases s.len(),
{
    if s.len() > 0 && s.last() == '"' {
        trim_trailing_quotes(s.drop_last())
    } else {
        s
    }
}

/// `s` with all leading and trailing quote characters removed.
pub open spec fn trim_quotes(s: Seq<char>) -> Seq<char> {
    trim_trailing_quotes(trim_leading_quotes(s))
}

/// What a decimal address field reads as: the value of its digits after
/// trimming quotes, or zero when the trimmed field is empty, holds a
/// non-digit, or overflows 128 bits.
pub open spec fn parse_u128_spec(s: Seq<char>) -> nat {
    let t = trim_quotes(s);
    if t.len() > 0 && all_digits(t) && dec_val(t) <= u128::MAX {
        dec_val(t)
    } else {
        0
    }
}

proof fn lemma_trim_leading_is_skip(s: Seq<char>, a: int)
    requires
        0 <= a <= s.len(),
        forall|k: int| 0 <= k < a ==> s[k] == '"',
        a == s.len() || s[a] != '"',
    ensures
        trim_leading_quotes(s) == s.skip(a),
    decreases a,
{
    if a == 0 {
        assert(s.skip(0) =~= s);
    } else {
        lemma_trim_leading_is_skip(s.skip(1), a - 1);
        assert(s.skip(1).skip(a - 1) =~= s.skip(a));
    }
}

proof fn lemma_trim_trailing_is_take(s: Seq<char>, b: int)
    requires
        0 <= b <= s.len(),
        forall|k: int| b <= k < s.len() ==> s[k] == '"',
        b == 0 || s[b - 1] != '"',
    ensures
        trim_trailing_quotes(s) == s.take(b),
    decreases s.len() - b,
{
    if b == s.len() {
        assert(s.take(b) =~= s);
    } else {
        assert(s.drop_last() =~= s.take(s.len() - 1));
        lemma_trim_trailing_is_take(s.take(s.len() - 1), b);
        assert(s.take(s.len() - 1).take(b) =~= s.take(b));
    }
}

/// A digit string's value only grows as digits are appended.
proof fn lemma_dec_val_prefix(s: Seq<char>, k: int)
    requires
        all_digits(s),
        0 <= k <= s.len(),
    ensures
        dec_val(s.take(k)) <= dec_val(s),
    decreases s.len() - k,
{
    if k == s.len() {
        assert(s.take(k) =~= s);
    } else {
        lemma_dec_val_prefix(s, k + 1);
        assert(s.take(k + 1).drop_last() =~= s.take(k));
        assert(dec_val(s.take(k + 1)) == dec_val(s.take(k)) * 10 + (s[k] as u32 - '0' as u32));
        assert(dec_val(s.take(k)) <= dec_val(s.take(k)) * 10) by (nonlinear_arith);
    }
}

/// Reads a decimal address field: the value of the digits between optional
/// surrounding quotes, or zero when the field does not read as a 128-bit
/// decimal number.
pub fn parse_u128(s: &str) -> (r: u128)
    ensures
        r as nat == parse_u128_spec(s@),
{
    let len = s.unicode_len();
    let mut a: usize = 0;
    while a < len && s.get_char(a) == '"'
        invariant
            0 <= a <= len,
            len == s@.len(),
            forall|k: int| 0 <= k < a ==> s@[k] == '"',
        decreases len - a,
    {
        a = a + 1;
    }
    let mut b: usize = len;
    while b > a && s.get_char(b - 1) == '"'
        invariant
            a <= b <= len,
            len == s@.len(),
            forall|k: int| b <= k < len ==> s@[k] == '"',
        decreases b,
    {
        b = b - 1;
    }
    let ghost t = s@.subrange(a as int, b as int);
    proof {
        if b == a {
            // the whole field is quotes: the trimmed field is empty
            lemma_trim_leading_is_skip(s@, b as int);
            lemma_trim_trailing_is_take(s@.skip(b as int), 0);
            assert(t =~= trim_quotes(s@));
        } else {
            lemma_trim_leading_is_skip(s@, a as int);
            lemma_trim_trailing_is_take(s@.skip(a as int), b - a);
            assert(t =~= s@.skip(a as int).take(b - a));
            assert(t =~= trim_quotes(s@));
        }
    }
    if a == b {
        return 0;
    }
    let mut value: u128 = 0;
    let mut i: usize = a;
    while i < b
        invariant
            a <= i <= b <= len,
            len == s@.len(),
            t == s@.subrange(a as int, b as int),
            t == trim_quotes(s@),
            all_digits(t.take(i - a)),
            value as nat == dec_val(t.take(i - a)),
        decreases b - i,
    {
        let c = s.get_char(i);
        if c < '0' || c > '9' {
            assert(t[i - a] == c);
            assert(!all_digits(t));
            return 0;
        }
        let d = (c as u32 - 48) as u128;
        proof {
            assert(t.take(i - a + 1).drop_last() =~= t.take(i - a));
            assert(t.take(i - a + 1).last() == c);
        }
        if value > (u128::MAX - d) / 10 {
            // the field overflows 128 bits; every longer digit string
            // overflows as well
            proof {
                assert(all_digits(t.take(i - a + 1)));
                assert(dec_val(t.take(i - a + 1)) > u128::MAX) by (nonlinear_arith)
                    requires
                        dec_val(t.take(i - a + 1)) == dec_val(t.take(i - a)) * 10 + d,
                        d < 10,
                        dec_val(t.take(i - a)) > (u128::MAX - d) / 10;
                if all_digits(t) {
                    lemma_dec_val_prefix(t, i - a + 1);
                }
            }
            return 0;
        }
        assert(value * 10 + d <= u128::MAX) by (nonlinear_arith)
            requires d < 10 && value <= (u128::MAX - d) / 10;
        value = value * 10 + d;
        i = i + 1;
    }
    proof {
        assert(t.take(b - a) =~= t);
    }
    value
}

} // verus!
