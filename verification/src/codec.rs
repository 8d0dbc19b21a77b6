//! Conversions between the 32-bit binary-digit string of an IPv4 address and
//! its dotted-decimal, hexadecimal, octal, decimal and IPv4-mapped-IPv6 forms.
//!
//! Two failure styles are kept apart on purpose: the dotted-decimal and hex
//! readers default a malformed group to zero and return an empty string only
//! on structural malformation, while the numeric readers and the binary
//! renderers report an explicit error.

use vstd::prelude::*;
use crate::digits::{
    all_bits, all_digits, base_val, bin_str, bits_val_u32, dec_str, digit_chr_upper, digit_of,
    digit_val, hex2_lower, hex2_upper, is_bin_u32, is_dec_u32, lemma_all_digits_concat,
    lemma_base_val_bound, lemma_base_val_concat, lemma_base_val_prefix, lemma_bin_str_val,
    lemma_bin_str_wf, lemma_dec_str_wf, lemma_pow2_vals, oct3, parse_dec_u32, push_bin_u32,
    push_dec_u32, push_hex2_lower, push_hex2_upper, push_oct3,
};
use vstd::arithmetic::div_mod::lemma_fundamental_div_mod;
use crate::strutil::{chars_to_string, split_chars, split_on, str_to_chars, views_of};

verus! {

/// Why a strict conversion was refused.
#[derive(Clone, Copy, Debug, PartialEq, Eq, Structural)]
pub enum ConvError {
    /// The input is not an unsigned 32-bit decimal number.
    NotDecimal,
    /// An octal group is malformed or does not fit in a byte.
    NotOctal,
    /// A character is neither '0' nor '1'.
    NotBinary,
    /// The binary string has an unsuitable length.
    BadLength,
    /// The binary value does not fit in 32 bits.
    TooLarge,
}

/// Permissive octet: its decimal value, or 0 where it is no octet.
pub open spec fn octet_or_zero(p: Seq<char>) -> nat {
    if p.len() >= 1 && all_digits(p, 10) && base_val(p, 10) <= 255 {
        base_val(p, 10)
    } else {
        0
    }
}

/// What `convert_dotted_decimals_to_binary` returns.
pub open spec fn dotted_to_binary_spec(s: Seq<char>) -> Seq<char> {
    let ps = split_on(s, '.');
    if ps.len() == 4 {
        bin_str(octet_or_zero(ps[0]), 8) + bin_str(octet_or_zero(ps[1]), 8) + bin_str(
            octet_or_zero(ps[2]),
            8,
        ) + bin_str(octet_or_zero(ps[3]), 8)
    } else {
        Seq::empty()
    }
}

/// Permissive hex byte: the value of two hex digits, or 0 where either is none.
pub open spec fn hex_pair_or_zero(c1: char, c2: char) -> nat {
    if digit_val(c1) < 16 && digit_val(c2) < 16 {
        16 * digit_val(c1) + digit_val(c2)
    } else {
        0
    }
}

/// What `convert_hexadecimals_to_binary` returns.
pub open spec fn hex_to_binary_spec(s: Seq<char>) -> Seq<char> {
    if s.len() == 8 {
        bin_str(hex_pair_or_zero(s[0], s[1]), 8) + bin_str(hex_pair_or_zero(s[2], s[3]), 8)
            + bin_str(hex_pair_or_zero(s[4], s[5]), 8) + bin_str(hex_pair_or_zero(s[6], s[7]), 8)
    } else {
        Seq::empty()
    }
}

/// Every 3-character group of `s` (the last may be shorter) is octal and fits
/// in a byte.
pub open spec fn oct_groups_ok(s: Seq<char>) -> bool
    decreases s.len(),
{
    if s.len() == 0 {
        true
    } else if s.len() <= 3 {
        all_digits(s, 8) && base_val(s, 8) <= 255
    } else {
        all_digits(s.take(3), 8) && base_val(s.take(3), 8) <= 255 && oct_groups_ok(s.skip(3))
    }
}

/// What `convert_octals_to_binary` returns on octal input: each group of up
/// to three octal digits as one 8-bit binary group.
pub open spec fn octals_to_binary_spec(s: Seq<char>) -> Seq<char>
    decreases s.len(),
{
    if s.len() == 0 {
        Seq::empty()
    } else if s.len() <= 3 {
        bin_str(base_val(s, 8), 8)
    } else {
        bin_str(base_val(s.take(3), 8), 8) + octals_to_binary_spec(s.skip(3))
    }
}

/// A binary-digit string of whole bytes.
pub open spec fn is_bin_bytes(s: Seq<char>) -> bool {
    s.len() % 8 == 0 && all_digits(s, 2)
}

/// A 32-bit binary-digit string.
pub open spec fn is_bin32(s: Seq<char>) -> bool {
    s.len() == 32 && all_digits(s, 2)
}

/// Each 8-bit group as two uppercase hex digits.
pub open spec fn bin_to_hex_spec(s: Seq<char>) -> Seq<char>
    decreases s.len(),
{
    if s.len() < 8 {
        Seq::empty()
    } else {
        hex2_upper(base_val(s.take(8), 2)) + bin_to_hex_spec(s.skip(8))
    }
}

/// Each 8-bit group as three zero-padded octal digits.
pub open spec fn bin_to_oct_spec(s: Seq<char>) -> Seq<char>
    decreases s.len(),
{
    if s.len() < 8 {
        Seq::empty()
    } else {
        oct3(base_val(s.take(8), 2)) + bin_to_oct_spec(s.skip(8))
    }
}

/// The four bytes of a 32-bit binary string.
pub open spec fn byte_at(s: Seq<char>, k: int) -> nat {
    base_val(s.subrange(8 * k, 8 * k + 8), 2)
}

/// What `convert_ip_binary_to_dotted_decimals` returns on a 32-bit string.
pub open spec fn bin32_to_dotted_spec(s: Seq<char>) -> Seq<char> {
    dec_str(byte_at(s, 0)) + seq!['.'] + dec_str(byte_at(s, 1)) + seq!['.'] + dec_str(byte_at(s, 2))
        + seq!['.'] + dec_str(byte_at(s, 3))
}

/// What `convert_ip_binary_to_ipv6` returns on a 32-bit string: the
/// IPv4-mapped literal, lowercase, with one colon inside the mapped bytes.
pub open spec fn bin32_to_mapped6_spec(s: Seq<char>) -> Seq<char> {
    seq![':', ':', 'f', 'f', 'f', 'f', ':'] + hex2_lower(byte_at(s, 0)) + hex2_lower(byte_at(s, 1))
        + seq![':'] + hex2_lower(byte_at(s, 2)) + hex2_lower(byte_at(s, 3))
}

/// Permissive octet reader: the value in `[0, 255]`, or 0.
fn octet_of(p: &Vec<char>) -> (v: u8)
    ensures
        v as nat == octet_or_zero(p@),
{
    match parse_dec_u32(p) {
        Some(v) => if v <= 255 {
            v as u8
        } else {
            0
        },
        None => 0,
    }
}

/// Dotted-decimal text to its 32-bit binary string. Exactly four
/// `.`-separated segments are required (else the result is empty); a segment
/// that is not a decimal number in `[0, 255]` counts as 0.
pub fn convert_dotted_decimals_to_binary(dotted_decimals_ip: &str) -> (r: String)
    ensures
        r@ == dotted_to_binary_spec(dotted_decimals_ip@),
{
    let chars = str_to_chars(dotted_decimals_ip);
    let parts = split_chars(&chars, '.');
    let ghost ps = split_on(dotted_decimals_ip@, '.');
    if parts.len() == 4 {
        let mut out: Vec<char> = Vec::new();
        proof {
            assert(views_of(parts@)[0] == parts@[0]@);
            assert(views_of(parts@)[1] == parts@[1]@);
            assert(views_of(parts@)[2] == parts@[2]@);
            assert(views_of(parts@)[3] == parts@[3]@);
        }
        let v0 = octet_of(&parts[0]);
        push_bin_u32(&mut out, v0 as u32, 8);
        let v1 = octet_of(&parts[1]);
        push_bin_u32(&mut out, v1 as u32, 8);
        let v2 = octet_of(&parts[2]);
        push_bin_u32(&mut out, v2 as u32, 8);
        let v3 = octet_of(&parts[3]);
        push_bin_u32(&mut out, v3 as u32, 8);
        proof {
            assert(out@ =~= dotted_to_binary_spec(dotted_decimals_ip@));
        }
        chars_to_string(&out)
    } else {
        proof {
            assert(dotted_to_binary_spec(dotted_decimals_ip@) =~= Seq::<char>::empty());
        }
        String::new()
    }
}

/// Permissive hex byte reader.
fn hex_pair_of(c1: char, c2: char) -> (v: u8)
    ensures
        v as nat == hex_pair_or_zero(c1, c2),
{
    let d1 = digit_of(c1);
    let d2 = digit_of(c2);
    if d1 < 16 && d2 < 16 {
        16 * d1 + d2
    } else {
        0
    }
}

/// Hexadecimal text to its 32-bit binary string. Exactly 8 hex characters
/// are required (else the result is empty); a malformed 2-character group
/// counts as 0. Letter case does not matter.
pub fn convert_hexadecimals_to_binary(hexadecimals_ip: &str) -> (r: String)
    ensures
        r@ == hex_to_binary_spec(hexadecimals_ip@),
{
    let chars = str_to_chars(hexadecimals_ip);
    if chars.len() == 8 {
        let mut out: Vec<char> = Vec::new();
        let v0 = hex_pair_of(chars[0], chars[1]);
        push_bin_u32(&mut out, v0 as u32, 8);
        let v1 = hex_pair_of(chars[2], chars[3]);
        push_bin_u32(&mut out, v1 as u32, 8);
        let v2 = hex_pair_of(chars[4], chars[5]);
        push_bin_u32(&mut out, v2 as u32, 8);
        let v3 = hex_pair_of(chars[6], chars[7]);
        push_bin_u32(&mut out, v3 as u32, 8);
        proof {
            assert(out@ =~= hex_to_binary_spec(hexadecimals_ip@));
        }
        chars_to_string(&out)
    } else {
        proof {
            assert(hex_to_binary_spec(hexadecimals_ip@) =~= Seq::<char>::empty());
        }
        String::new()
    }
}

/// Decimal text to a 32-bit zero-padded binary string. The whole input must
/// read as an unsigned 32-bit decimal number.
pub fn convert_decimals_to_binary(decimals_ip: &str) -> (r: Result<String, ConvError>)
    ensures
        r is Ok <==> is_dec_u32(decimals_ip@),
        r matches Ok(t) ==> t@ == bin_str(base_val(decimals_ip@, 10), 32),
        r matches Err(e) ==> e == ConvError::NotDecimal,
{
    let chars = str_to_chars(decimals_ip);
    match parse_dec_u32(&chars) {
        Some(v) => {
            let mut out: Vec<char> = Vec::new();
            push_bin_u32(&mut out, v, 32);
            proof {
                assert(out@ =~= bin_str(base_val(decimals_ip@, 10), 32));
            }
            Ok(chars_to_string(&out))
        },
        None => Err(ConvError::NotDecimal),
    }
}

/// One octal group of up to three digits, read strictly into a byte.
fn oct_group_of(p: &Vec<char>, from: usize, to: usize) -> (r: Option<u8>)
    requires
        from < to <= p@.len(),
        to - from <= 3,
    ensures
        ({
            let g = p@.subrange(from as int, to as int);
            match r {
                Some(v) => all_digits(g, 8) && base_val(g, 8) <= 255 && v as nat == base_val(g, 8),
                None => !(all_digits(g, 8) && base_val(g, 8) <= 255),
            }
        }),
{
    let ghost g = p@.subrange(from as int, to as int);
    let mut acc: u32 = 0;
    let mut i: usize = from;
    proof {
        assert(p@.subrange(from as int, from as int) =~= Seq::<char>::empty());
    }
    while i < to
        invariant
            from <= i <= to <= p@.len(),
            to - from <= 3,
            g == p@.subrange(from as int, to as int),
            all_digits(p@.subrange(from as int, i as int), 8),
            acc as nat == base_val(p@.subrange(from as int, i as int), 8),
            acc <= 255,
        decreases to - i,
    {
        assert(p@[i as int] == g[i - from]);
        let d = digit_of(p[i]);
        proof {
            assert(p@.subrange(from as int, i + 1) =~= p@.subrange(from as int, i as int).push(
                p@[i as int],
            ));
            assert(p@.subrange(from as int, i + 1).drop_last() =~= p@.subrange(
                from as int,
                i as int,
            ));
        }
        if d >= 8 {
            assert(!all_digits(g, 8));
            return None;
        }
        acc = acc * 8 + d as u32;
        if acc > 255 {
            proof {
                lemma_base_val_prefix(g, i + 1 - from, 8);
                assert(g.take(i + 1 - from) =~= p@.subrange(from as int, i + 1));
            }
            return None;
        }
        i += 1;
    }
    Some(acc as u8)
}

/// Strict octal groups, front to back.
fn oct_groups_rec(p: &Vec<char>, i: usize, out: &mut Vec<char>) -> (ok: bool)
    requires
        i <= p@.len(),
    ensures
        ok == oct_groups_ok(p@.skip(i as int)),
        ok ==> final(out)@ == old(out)@ + octals_to_binary_spec(p@.skip(i as int)),
    decreases p@.len() - i,
{
    let ghost rest = p@.skip(i as int);
    if i == p.len() {
        proof {
            assert(rest =~= Seq::<char>::empty());
            assert(out@ =~= old(out)@ + octals_to_binary_spec(rest));
        }
        true
    } else {
        let j = if p.len() - i < 3 {
            p.len()
        } else {
            i + 3
        };
        proof {
            if rest.len() <= 3 {
                assert(p@.subrange(i as int, j as int) =~= rest);
            } else {
                assert(p@.subrange(i as int, j as int) =~= rest.take(3));
            }
        }
        match oct_group_of(p, i, j) {
            Some(v) => {
                push_bin_u32(out, v as u32, 8);
                if j == p.len() {
                    proof {
                        assert(out@ =~= old(out)@ + octals_to_binary_spec(rest));
                    }
                    true
                } else {
                    let ok = oct_groups_rec(p, j, out);
                    proof {
                        assert(p@.skip(j as int) =~= rest.skip(3));
                    }
                    if ok {
                        proof {
                            assert(out@ =~= old(out)@ + octals_to_binary_spec(rest));
                        }
                    }
                    ok
                }
            },
            None => false,
        }
    }
}

/// Octal text to a binary string: each group of three octal digits (the last
/// group may be shorter) becomes one 8-bit binary group. Any group that is
/// not octal, or that exceeds a byte, is an error.
pub fn convert_octals_to_binary(octals_ip: &str) -> (r: Result<String, ConvError>)
    ensures
        r is Ok <==> oct_groups_ok(octals_ip@),
        r matches Ok(t) ==> t@ == octals_to_binary_spec(octals_ip@),
        r matches Err(e) ==> e == ConvError::NotOctal,
{
    let chars = str_to_chars(octals_ip);
    let mut out: Vec<char> = Vec::new();
    let ok = oct_groups_rec(&chars, 0, &mut out);
    proof {
        assert(chars@.skip(0) =~= octals_ip@);
    }
    if ok {
        Ok(chars_to_string(&out))
    } else {
        Err(ConvError::NotOctal)
    }
}

/// A 32-bit binary string to eight uppercase hex digits (more generally, any
/// whole number of 8-bit groups to two hex digits each).
pub fn convert_ip_binary_to_hexadecimals(binary_ip: &str) -> (r: Result<String, ConvError>)
    ensures
        r is Ok <==> is_bin_bytes(binary_ip@),
        r matches Ok(t) ==> t@ == bin_to_hex_spec(binary_ip@),
        r matches Err(e) ==> e == (if binary_ip@.len() % 8 != 0 {
            ConvError::BadLength
        } else {
            ConvError::NotBinary
        }),
{
    let chars = str_to_chars(binary_ip);
    if chars.len() % 8 != 0 {
        return Err(ConvError::BadLength);
    }
    if !all_bits(&chars) {
        return Err(ConvError::NotBinary);
    }
    let mut out: Vec<char> = Vec::new();
    let mut i: usize = 0;
    proof {
        assert(chars@.skip(0) =~= chars@);
        assert(out@ + bin_to_hex_spec(chars@) =~= bin_to_hex_spec(chars@));
    }
    while i < chars.len()
        invariant
            i <= chars@.len(),
            i % 8 == 0,
            chars@.len() % 8 == 0,
            all_digits(chars@, 2),
            bin_to_hex_spec(chars@) == out@ + bin_to_hex_spec(chars@.skip(i as int)),
        decreases chars@.len() - i,
    {
        let ghost rest = chars@.skip(i as int);
        proof {
            assert(rest.take(8) =~= chars@.subrange(i as int, i + 8));
            assert(rest.skip(8) =~= chars@.skip(i + 8));
            assert(forall|k: int|
                0 <= k < 8 ==> #[trigger] chars@.subrange(i as int, i + 8)[k] == chars@[i + k]);
        }
        let v = bits_val_u32(&chars, i, i + 8);
        proof {
            lemma_base_val_bound(chars@.subrange(i as int, i + 8), 2);
            lemma_pow2_vals();
        }
        let ghost out_before = out@;
        push_hex2_upper(&mut out, v as u8);
        proof {
            assert(bin_to_hex_spec(rest) == hex2_upper(base_val(rest.take(8), 2))
                + bin_to_hex_spec(rest.skip(8)));
            assert(bin_to_hex_spec(chars@) =~= out@ + bin_to_hex_spec(chars@.skip(i + 8)));
        }
        i += 8;
    }
    proof {
        assert(chars@.skip(chars@.len() as int) =~= Seq::<char>::empty());
        assert(bin_to_hex_spec(chars@) =~= out@);
    }
    Ok(chars_to_string(&out))
}

/// A binary string of whole bytes read as one 32-bit decimal number.
pub fn convert_ip_binary_to_decimals(binary_ip: &str) -> (r: Result<String, ConvError>)
    ensures
        r is Ok <==> is_bin_u32(binary_ip@),
        r matches Ok(t) ==> t@ == dec_str(base_val(binary_ip@, 2)),
        r matches Err(e) ==> e == (if binary_ip@.len() == 0 {
            ConvError::BadLength
        } else if !all_digits(binary_ip@, 2) {
            ConvError::NotBinary
        } else {
            ConvError::TooLarge
        }),
{
    let chars = str_to_chars(binary_ip);
    if chars.len() == 0 {
        return Err(ConvError::BadLength);
    }
    if !all_bits(&chars) {
        return Err(ConvError::NotBinary);
    }
    let mut acc: u64 = 0;
    let mut i: usize = 0;
    proof {
        assert(chars@.take(0) =~= Seq::<char>::empty());
    }
    while i < chars.len()
        invariant
            i <= chars@.len(),
            chars@ == binary_ip@,
            chars@.len() >= 1,
            all_digits(chars@, 2),
            acc as nat == base_val(chars@.take(i as int), 2),
            acc <= u32::MAX,
        decreases chars@.len() - i,
    {
        let d = digit_of(chars[i]);
        proof {
            assert(chars@.take(i + 1) =~= chars@.take(i as int).push(chars@[i as int]));
            assert(chars@.take(i + 1).drop_last() =~= chars@.take(i as int));
        }
        let tmp: u64 = acc * 2 + d as u64;
        if tmp > u32::MAX as u64 {
            proof {
                assert(chars@.take(i + 1).last() == chars@[i as int]);
                assert(base_val(chars@.take(i + 1), 2) == (acc as nat) * 2 + d as nat);
                lemma_base_val_prefix(chars@, i + 1, 2);
                assert(base_val(chars@, 2) > u32::MAX);
            }
            return Err(ConvError::TooLarge);
        }
        acc = tmp;
        i += 1;
    }
    proof {
        assert(chars@.take(chars@.len() as int) =~= chars@);
    }
    let mut out: Vec<char> = Vec::new();
    push_dec_u32(&mut out, acc as u32);
    proof {
        assert(out@ =~= dec_str(base_val(binary_ip@, 2)));
    }
    Ok(chars_to_string(&out))
}

/// A 32-bit binary string to twelve octal digits, three per byte (more
/// generally, any whole number of 8-bit groups).
pub fn convert_ip_binary_to_octals(binary_ip: &str) -> (r: Result<String, ConvError>)
    ensures
        r is Ok <==> is_bin_bytes(binary_ip@),
        r matches Ok(t) ==> t@ == bin_to_oct_spec(binary_ip@),
        r matches Err(e) ==> e == (if binary_ip@.len() % 8 != 0 {
            ConvError::BadLength
        } else {
            ConvError::NotBinary
        }),
{
    let chars = str_to_chars(binary_ip);
    if chars.len() % 8 != 0 {
        return Err(ConvError::BadLength);
    }
    if !all_bits(&chars) {
        return Err(ConvError::NotBinary);
    }
    let mut out: Vec<char> = Vec::new();
    let mut i: usize = 0;
    proof {
        assert(chars@.skip(0) =~= chars@);
        assert(out@ + bin_to_oct_spec(chars@) =~= bin_to_oct_spec(chars@));
    }
    while i < chars.len()
        invariant
            i <= chars@.len(),
            i % 8 == 0,
            chars@.len() % 8 == 0,
            all_digits(chars@, 2),
            bin_to_oct_spec(chars@) == out@ + bin_to_oct_spec(chars@.skip(i as int)),
        decreases chars@.len() - i,
    {
        let ghost rest = chars@.skip(i as int);
        proof {
            assert(rest.take(8) =~= chars@.subrange(i as int, i + 8));
            assert(rest.skip(8) =~= chars@.skip(i + 8));
            assert(forall|k: int|
                0 <= k < 8 ==> #[trigger] chars@.subrange(i as int, i + 8)[k] == chars@[i + k]);
        }
        let v = bits_val_u32(&chars, i, i + 8);
        proof {
            lemma_base_val_bound(chars@.subrange(i as int, i + 8), 2);
            lemma_pow2_vals();
        }
        push_oct3(&mut out, v as u8);
        proof {
            assert(bin_to_oct_spec(rest) == oct3(base_val(rest.take(8), 2)) + bin_to_oct_spec(
                rest.skip(8),
            ));
            assert(bin_to_oct_spec(chars@) =~= out@ + bin_to_oct_spec(chars@.skip(i + 8)));
        }
        i += 8;
    }
    proof {
        assert(chars@.skip(chars@.len() as int) =~= Seq::<char>::empty());
        assert(bin_to_oct_spec(chars@) =~= out@);
    }
    Ok(chars_to_string(&out))
}

/// One byte of a 32-bit binary vector.
fn byte_of_bin32(chars: &Vec<char>, k: usize) -> (v: u8)
    requires
        chars@.len() == 32,
        all_digits(chars@, 2),
        k < 4,
    ensures
        v as nat == byte_at(chars@, k as int),
{
    proof {
        let lo = 8 * (k as int);
        assert(forall|j: int|
            0 <= j < 8 ==> #[trigger] chars@.subrange(lo, lo + 8)[j] == chars@[lo + j]);
    }
    let v = bits_val_u32(chars, 8 * k, 8 * k + 8);
    proof {
        lemma_base_val_bound(chars@.subrange(8 * k as int, 8 * k as int + 8), 2);
        lemma_pow2_vals();
    }
    v as u8
}

/// A 32-bit binary string to dotted-decimal text.
pub fn convert_ip_binary_to_dotted_decimals(binary_ip: &str) -> (r: Result<String, ConvError>)
    ensures
        r is Ok <==> is_bin32(binary_ip@),
        r matches Ok(t) ==> t@ == bin32_to_dotted_spec(binary_ip@),
        r matches Err(e) ==> e == (if binary_ip@.len() != 32 {
            ConvError::BadLength
        } else {
            ConvError::NotBinary
        }),
{
    let chars = str_to_chars(binary_ip);
    if chars.len() != 32 {
        return Err(ConvError::BadLength);
    }
    if !all_bits(&chars) {
        return Err(ConvError::NotBinary);
    }
    let mut out: Vec<char> = Vec::new();
    let v0 = byte_of_bin32(&chars, 0);
    push_dec_u32(&mut out, v0 as u32);
    out.push('.');
    let v1 = byte_of_bin32(&chars, 1);
    push_dec_u32(&mut out, v1 as u32);
    out.push('.');
    let v2 = byte_of_bin32(&chars, 2);
    push_dec_u32(&mut out, v2 as u32);
    out.push('.');
    let v3 = byte_of_bin32(&chars, 3);
    push_dec_u32(&mut out, v3 as u32);
    proof {
        assert(out@ =~= bin32_to_dotted_spec(binary_ip@));
    }
    Ok(chars_to_string(&out))
}

/// A 32-bit binary string to the IPv4-mapped IPv6 literal `::ffff:hhhh:hhhh`
/// (lowercase hex, one colon inside the mapped bytes).
pub fn convert_ip_binary_to_ipv6(binary_ip: &str) -> (r: Result<String, ConvError>)
    ensures
        r is Ok <==> is_bin32(binary_ip@),
        r matches Ok(t) ==> t@ == bin32_to_mapped6_spec(binary_ip@),
        r matches Err(e) ==> e == (if binary_ip@.len() != 32 {
            ConvError::BadLength
        } else {
            ConvError::NotBinary
        }),
{
    let chars = str_to_chars(binary_ip);
    if chars.len() != 32 {
        return Err(ConvError::BadLength);
    }
    if !all_bits(&chars) {
        return Err(ConvError::NotBinary);
    }
    let mut out: Vec<char> = Vec::new();
    out.push(':');
    out.push(':');
    out.push('f');
    out.push('f');
    out.push('f');
    out.push('f');
    out.push(':');
    let v0 = byte_of_bin32(&chars, 0);
    push_hex2_lower(&mut out, v0);
    let v1 = byte_of_bin32(&chars, 1);
    push_hex2_lower(&mut out, v1);
    out.push(':');
    let v2 = byte_of_bin32(&chars, 2);
    push_hex2_lower(&mut out, v2);
    let v3 = byte_of_bin32(&chars, 3);
    push_hex2_lower(&mut out, v3);
    proof {
        assert(out@ =~= bin32_to_mapped6_spec(binary_ip@));
    }
    Ok(chars_to_string(&out))
}

/// Decimal to binary and back is the identity: the canonical decimal text of
/// any 32-bit value converts to its 32-bit binary string, and that binary
/// string converts back to the same decimal text.
pub proof fn lemma_decimal_round_trip(n: u32)
    ensures
        is_dec_u32(dec_str(n as nat)),
        bin_str(base_val(dec_str(n as nat), 10), 32) == bin_str(n as nat, 32),
        is_bin_u32(bin_str(n as nat, 32)),
        dec_str(base_val(bin_str(n as nat, 32), 2)) == dec_str(n as nat),
{
    lemma_dec_str_wf(n as nat);
    lemma_bin_str_wf(n as nat, 32);
    lemma_pow2_vals();
    lemma_bin_str_val(n as nat, 32);
}

/// Hex to binary and back is the identity up to letter case: eight hex
/// characters convert to a 32-bit binary string that converts back to the
/// same characters, uppercased.
#[verifier::rlimit(60)]
pub proof fn lemma_hex_round_trip(x: Seq<char>)
    requires
        x.len() == 8,
        all_digits(x, 16),
    ensures
        is_bin_bytes(hex_to_binary_spec(x)),
        bin_to_hex_spec(hex_to_binary_spec(x)) == Seq::new(
            8,
            |i: int| digit_chr_upper(digit_val(x[i])),
        ),
{
    let p0 = hex_pair_or_zero(x[0], x[1]);
    let p1 = hex_pair_or_zero(x[2], x[3]);
    let p2 = hex_pair_or_zero(x[4], x[5]);
    let p3 = hex_pair_or_zero(x[6], x[7]);
    let bits = hex_to_binary_spec(x);
    lemma_bin_str_wf(p0, 8);
    lemma_bin_str_wf(p1, 8);
    lemma_bin_str_wf(p2, 8);
    lemma_bin_str_wf(p3, 8);
    lemma_pow2_vals();
    lemma_bin_str_val(p0, 8);
    lemma_bin_str_val(p1, 8);
    lemma_bin_str_val(p2, 8);
    lemma_bin_str_val(p3, 8);
    lemma_all_digits_concat(bin_str(p0, 8), bin_str(p1, 8), 2);
    lemma_all_digits_concat(bin_str(p0, 8) + bin_str(p1, 8), bin_str(p2, 8), 2);
    lemma_all_digits_concat(bin_str(p0, 8) + bin_str(p1, 8) + bin_str(p2, 8), bin_str(p3, 8), 2);
    assert(all_digits(bits, 2));
    assert(bits.take(8) =~= bin_str(p0, 8));
    assert(bits.skip(8).take(8) =~= bin_str(p1, 8));
    assert(bits.skip(8).skip(8) =~= bits.skip(16));
    assert(bits.skip(16).take(8) =~= bin_str(p2, 8));
    assert(bits.skip(16).skip(8) =~= bits.skip(24));
    assert(bits.skip(24).take(8) =~= bin_str(p3, 8));
    assert(bits.skip(24).skip(8) =~= Seq::<char>::empty());
    assert(bin_to_hex_spec(Seq::<char>::empty()) == Seq::<char>::empty());
    assert(bits.skip(24).len() == 8);
    assert(bin_to_hex_spec(bits.skip(24)) == hex2_upper(p3) + bin_to_hex_spec(
        Seq::<char>::empty(),
    ));
    assert(bin_to_hex_spec(bits.skip(16)) == hex2_upper(p2) + bin_to_hex_spec(bits.skip(24)));
    assert(bin_to_hex_spec(bits.skip(8)) == hex2_upper(p1) + bin_to_hex_spec(bits.skip(16)));
    assert(bin_to_hex_spec(bits) == hex2_upper(p0) + bin_to_hex_spec(bits.skip(8)));
    lemma_hex_pair_chars(x[0], x[1]);
    lemma_hex_pair_chars(x[2], x[3]);
    lemma_hex_pair_chars(x[4], x[5]);
    lemma_hex_pair_chars(x[6], x[7]);
    assert(bin_to_hex_spec(bits) =~= Seq::new(8, |i: int| digit_chr_upper(digit_val(x[i]))));
}

/// Two hex digits are recovered, uppercased, from the byte they spell.
proof fn lemma_hex_pair_chars(c1: char, c2: char)
    requires
        digit_val(c1) < 16,
        digit_val(c2) < 16,
    ensures
        hex2_upper(hex_pair_or_zero(c1, c2)) == seq![
            digit_chr_upper(digit_val(c1)),
            digit_chr_upper(digit_val(c2)),
        ],
{
    let p = hex_pair_or_zero(c1, c2);
    lemma_fundamental_div_mod(p as int, 16);
    assert(p / 16 == digit_val(c1) && p % 16 == digit_val(c2));
    assert(hex2_upper(p) =~= seq![digit_chr_upper(digit_val(c1)), digit_chr_upper(digit_val(c2))]);
}

} // verus!
