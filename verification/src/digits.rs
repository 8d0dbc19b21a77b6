//! The numeric model: digit characters, positional values of digit strings,
//! and fixed-width or canonical renderings in bases 2, 8, 10 and 16.

use vstd::prelude::*;
use vstd::arithmetic::power::{pow, lemma_pow_positive, lemma_pow_adds, lemma_pow0, lemma_pow1};
use vstd::arithmetic::div_mod::lemma_fundamental_div_mod;

verus! {

/// Numeric value of a digit character; hex letters count in either case.
/// Characters that are no digit in base 16 are mapped to 16, so that
/// `digit_val(c) < b` says "`c` is a digit of base `b`".
pub open spec fn digit_val(c: char) -> nat {
    match c {
        '0' => 0,
        '1' => 1,
        '2' => 2,
        '3' => 3,
        '4' => 4,
        '5' => 5,
        '6' => 6,
        '7' => 7,
        '8' => 8,
        '9' => 9,
        'a' | 'A' => 10,
        'b' | 'B' => 11,
        'c' | 'C' => 12,
        'd' | 'D' => 13,
        'e' | 'E' => 14,
        'f' | 'F' => 15,
        _ => 16,
    }
}

pub open spec fn is_digit_base(c: char, b: nat) -> bool {
    digit_val(c) < b
}

pub open spec fn all_digits(s: Seq<char>, b: nat) -> bool {
    forall|i: int| 0 <= i < s.len() ==> is_digit_base(#[trigger] s[i], b)
}

/// Value of a digit string read in base `b`, most significant digit first.
pub open spec fn base_val(s: Seq<char>, b: nat) -> nat
    decreases s.len(),
{
    if s.len() == 0 {
        0
    } else {
        base_val(s.drop_last(), b) * b + digit_val(s.last())
    }
}

/// Digit character of a value below 16; hex letters come out lowercase.
pub open spec fn digit_chr(v: nat) -> char {
    if v == 0 { '0' }
    else if v == 1 { '1' }
    else if v == 2 { '2' }
    else if v == 3 { '3' }
    else if v == 4 { '4' }
    else if v == 5 { '5' }
    else if v == 6 { '6' }
    else if v == 7 { '7' }
    else if v == 8 { '8' }
    else if v == 9 { '9' }
    else if v == 10 { 'a' }
    else if v == 11 { 'b' }
    else if v == 12 { 'c' }
    else if v == 13 { 'd' }
    else if v == 14 { 'e' }
    else { 'f' }
}

/// Digit character of a value below 16; hex letters come out uppercase.
pub open spec fn digit_chr_upper(v: nat) -> char {
    if v < 10 { digit_chr(v) }
    else if v == 10 { 'A' }
    else if v == 11 { 'B' }
    else if v == 12 { 'C' }
    else if v == 13 { 'D' }
    else if v == 14 { 'E' }
    else { 'F' }
}

/// `n` rendered in binary over exactly `w` digits, most significant first
/// (bits of `n` above the width are dropped).
pub open spec fn bin_str(n: nat, w: nat) -> Seq<char>
    decreases w,
{
    if w == 0 {
        Seq::empty()
    } else {
        bin_str(n / 2, (w - 1) as nat).push(digit_chr(n % 2))
    }
}

/// Canonical decimal rendering of `n`: no sign, no leading zero.
pub open spec fn dec_str(n: nat) -> Seq<char>
    decreases n,
{
    if n < 10 {
        seq![digit_chr(n)]
    } else {
        dec_str(n / 10).push(digit_chr(n % 10))
    }
}

/// Canonical lowercase hexadecimal rendering of `n`: no leading zero.
pub open spec fn hex_lower_str(n: nat) -> Seq<char>
    decreases n,
{
    if n < 16 {
        seq![digit_chr(n)]
    } else {
        hex_lower_str(n / 16).push(digit_chr(n % 16))
    }
}

/// A byte as two uppercase hex digits.
pub open spec fn hex2_upper(n: nat) -> Seq<char> {
    seq![digit_chr_upper(n / 16), digit_chr_upper(n % 16)]
}

/// A byte as two lowercase hex digits.
pub open spec fn hex2_lower(n: nat) -> Seq<char> {
    seq![digit_chr(n / 16), digit_chr(n % 16)]
}

/// A byte as three zero-padded octal digits.
pub open spec fn oct3(n: nat) -> Seq<char> {
    seq![digit_chr(n / 64), digit_chr((n / 8) % 8), digit_chr(n % 8)]
}

pub proof fn lemma_digit_chr_val(v: nat)
    requires
        v < 16,
    ensures
        digit_val(digit_chr(v)) == v,
        digit_val(digit_chr_upper(v)) == v,
{
}

pub proof fn lemma_bin_str_wf(n: nat, w: nat)
    ensures
        bin_str(n, w).len() == w,
        all_digits(bin_str(n, w), 2),
    decreases w,
{
    if w > 0 {
        lemma_bin_str_wf(n / 2, (w - 1) as nat);
    }
}

/// The binary rendering of a value below `pow(2, w)` reads back as the value.
pub proof fn lemma_bin_str_val(n: nat, w: nat)
    requires
        n < pow(2, w),
    ensures
        base_val(bin_str(n, w), 2) == n,
    decreases w,
{
    if w == 0 {
        lemma_pow0(2);
    } else {
        assert(pow(2, w) == 2 * pow(2, (w - 1) as nat)) by {
            lemma_pow_adds(2, 1, (w - 1) as nat);
            lemma_pow1(2);
        }
        lemma_bin_str_val(n / 2, (w - 1) as nat);
        let s = bin_str(n, w);
        assert(s.drop_last() =~= bin_str(n / 2, (w - 1) as nat));
        lemma_fundamental_div_mod(n as int, 2);
    }
}

/// Digit strings concatenate to a digit string.
pub proof fn lemma_all_digits_concat(a: Seq<char>, c: Seq<char>, b: nat)
    requires
        all_digits(a, b),
        all_digits(c, b),
    ensures
        all_digits(a + c, b),
{
    assert forall|i: int| 0 <= i < (a + c).len() implies is_digit_base((a + c)[i], b) by {
        if i < a.len() {
            assert((a + c)[i] == a[i]);
        } else {
            assert((a + c)[i] == c[i - a.len()]);
        }
    }
}

/// The value of a digit string is below `pow(b, len)`.
pub proof fn lemma_base_val_bound(s: Seq<char>, b: nat)
    requires
        all_digits(s, b),
        b >= 2,
    ensures
        base_val(s, b) < pow(b as int, s.len()),
    decreases s.len(),
{
    if s.len() == 0 {
        lemma_pow0(b as int);
    } else {
        let t = s.drop_last();
        assert(all_digits(t, b));
        lemma_base_val_bound(t, b);
        lemma_pow_adds(b as int, t.len(), 1);
        lemma_pow1(b as int);
        assert(base_val(t, b) * b + digit_val(s.last()) < pow(b as int, t.len()) * b) by (nonlinear_arith)
            requires
                base_val(t, b) < pow(b as int, t.len()),
                digit_val(s.last()) < b,
                b >= 2,
                pow(b as int, t.len()) >= 1,
        {
        }
        assert(pow(b as int, t.len()) >= 1) by {
            lemma_pow_positive(b as int, t.len());
        }
    }
}

/// Concatenation law: reading `a + c` is reading `a`, shifted, plus `c`.
pub proof fn lemma_base_val_concat(a: Seq<char>, c: Seq<char>, b: nat)
    requires
        b >= 1,
    ensures
        base_val(a + c, b) == base_val(a, b) * pow(b as int, c.len()) + base_val(c, b),
    decreases c.len(),
{
    if c.len() == 0 {
        assert(a + c =~= a);
        lemma_pow0(b as int);
    } else {
        let c0 = c.drop_last();
        lemma_base_val_concat(a, c0, b);
        assert((a + c).drop_last() =~= a + c0);
        assert((a + c).last() == c.last());
        lemma_pow_adds(b as int, c0.len(), 1);
        lemma_pow1(b as int);
        lemma_pow_positive(b as int, c0.len());
        assert((base_val(a, b) * pow(b as int, c0.len()) + base_val(c0, b)) * b
            == base_val(a, b) * (pow(b as int, c0.len()) * b) + base_val(c0, b) * b) by (nonlinear_arith);
    }
}

/// A prefix never reads as more than the whole string.
pub proof fn lemma_base_val_prefix(s: Seq<char>, i: int, b: nat)
    requires
        b >= 1,
        0 <= i <= s.len(),
    ensures
        base_val(s.take(i), b) <= base_val(s, b),
{
    let a = s.take(i);
    let c = s.skip(i);
    assert(s =~= a + c);
    lemma_base_val_concat(a, c, b);
    lemma_pow_positive(b as int, c.len());
    assert(base_val(a, b) * pow(b as int, c.len()) >= base_val(a, b) * 1) by (nonlinear_arith)
        requires
            pow(b as int, c.len()) >= 1,
            base_val(a, b) >= 0,
    {
    }
}

pub proof fn lemma_dec_str_wf(n: nat)
    ensures
        dec_str(n).len() >= 1,
        all_digits(dec_str(n), 10),
        base_val(dec_str(n), 10) == n,
    decreases n,
{
    if n < 10 {
        let s = dec_str(n);
        assert(s.drop_last() =~= Seq::<char>::empty());
        assert(s.last() == digit_chr(n));
        lemma_digit_chr_val(n);
        assert(base_val(Seq::<char>::empty(), 10) == 0);
        assert(base_val(s, 10) == base_val(s.drop_last(), 10) * 10 + digit_val(s.last()));
    } else {
        lemma_dec_str_wf(n / 10);
        let s = dec_str(n);
        assert(s == dec_str(n / 10).push(digit_chr(n % 10)));
        assert(s.drop_last() =~= dec_str(n / 10));
        assert(s.last() == digit_chr(n % 10));
        assert(digit_val(digit_chr(n % 10)) == n % 10);
        assert(base_val(s, 10) == base_val(dec_str(n / 10), 10) * 10 + (n % 10));
        lemma_fundamental_div_mod(n as int, 10);
    }
}

pub proof fn lemma_hex_lower_str_wf(n: nat)
    ensures
        hex_lower_str(n).len() >= 1,
        all_digits(hex_lower_str(n), 16),
        base_val(hex_lower_str(n), 16) == n,
    decreases n,
{
    if n < 16 {
        let s = hex_lower_str(n);
        assert(s.drop_last() =~= Seq::<char>::empty());
        assert(s.last() == digit_chr(n));
        lemma_digit_chr_val(n);
        assert(base_val(Seq::<char>::empty(), 16) == 0);
        assert(base_val(s, 16) == base_val(s.drop_last(), 16) * 16 + digit_val(s.last()));
    } else {
        lemma_hex_lower_str_wf(n / 16);
        let s = hex_lower_str(n);
        assert(s == hex_lower_str(n / 16).push(digit_chr(n % 16)));
        assert(s.drop_last() =~= hex_lower_str(n / 16));
        assert(s.last() == digit_chr(n % 16));
        lemma_digit_chr_val(n % 16);
        assert(base_val(s, 16) == base_val(hex_lower_str(n / 16), 16) * 16 + (n % 16));
        lemma_fundamental_div_mod(n as int, 16);
    }
}

/// Digit character of a value below 16.
pub fn chr_of(v: u8) -> (c: char)
    requires
        v < 16,
    ensures
        c == digit_chr(v as nat),
{
    match v {
        0 => '0',
        1 => '1',
        2 => '2',
        3 => '3',
        4 => '4',
        5 => '5',
        6 => '6',
        7 => '7',
        8 => '8',
        9 => '9',
        10 => 'a',
        11 => 'b',
        12 => 'c',
        13 => 'd',
        14 => 'e',
        _ => 'f',
    }
}

/// Uppercase digit character of a value below 16.
pub fn chr_upper_of(v: u8) -> (c: char)
    requires
        v < 16,
    ensures
        c == digit_chr_upper(v as nat),
{
    if v < 10 {
        chr_of(v)
    } else {
        match v {
            10 => 'A',
            11 => 'B',
            12 => 'C',
            13 => 'D',
            14 => 'E',
            _ => 'F',
        }
    }
}

/// Numeric value of a digit character (16 where it is none).
pub fn digit_of(c: char) -> (v: u8)
    ensures
        v as nat == digit_val(c),
{
    match c {
        '0' => 0,
        '1' => 1,
        '2' => 2,
        '3' => 3,
        '4' => 4,
        '5' => 5,
        '6' => 6,
        '7' => 7,
        '8' => 8,
        '9' => 9,
        'a' | 'A' => 10,
        'b' | 'B' => 11,
        'c' | 'C' => 12,
        'd' | 'D' => 13,
        'e' | 'E' => 14,
        'f' | 'F' => 15,
        _ => 16,
    }
}

/// Appends the `w`-digit binary rendering of `n`.
pub fn push_bin_u32(out: &mut Vec<char>, n: u32, w: u32)
    ensures
        final(out)@ == old(out)@ + bin_str(n as nat, w as nat),
    decreases w,
{
    if w == 0 {
        assert(out@ =~= old(out)@ + bin_str(n as nat, 0));
    } else {
        push_bin_u32(out, n / 2, w - 1);
        out.push(chr_of((n % 2) as u8));
        assert(out@ =~= old(out)@ + bin_str(n as nat, w as nat));
    }
}

/// Appends the canonical decimal rendering of `n`.
pub fn push_dec_u32(out: &mut Vec<char>, n: u32)
    ensures
        final(out)@ == old(out)@ + dec_str(n as nat),
        final(out)@.len() <= old(out)@.len() + 10,
    decreases n,
{
    if n < 10 {
        out.push(chr_of(n as u8));
        assert(out@ =~= old(out)@ + dec_str(n as nat));
    } else {
        proof {
            lemma_dec_str_len_u32(n as nat);
        }
        push_dec_u32(out, n / 10);
        out.push(chr_of((n % 10) as u8));
        assert(out@ =~= old(out)@ + dec_str(n as nat));
    }
}

/// A `u32` has at most 10 decimal digits.
proof fn lemma_dec_str_len_u32(n: nat)
    requires
        n < 0x1_0000_0000,
    ensures
        dec_str(n).len() <= 10,
{
    assert(pow(10, 10) == 10_000_000_000) by {
        reveal_with_fuel(pow, 11);
    }
    lemma_dec_str_len(n, 10);
}

proof fn lemma_dec_str_len(n: nat, k: nat)
    requires
        k >= 1,
        n < pow(10, k),
    ensures
        dec_str(n).len() <= k,
    decreases n,
{
    if n < 10 {
    } else {
        assert(pow(10, k) == pow(10, (k - 1) as nat) * 10) by {
            lemma_pow_adds(10, (k - 1) as nat, 1);
            lemma_pow1(10);
        }
        assert(n / 10 < pow(10, (k - 1) as nat)) by (nonlinear_arith)
            requires
                n < pow(10, (k - 1) as nat) * 10,
                n >= 10,
        {
        }
        assert(k >= 2) by {
            if k == 1 {
                lemma_pow1(10);
            }
        }
        lemma_dec_str_len(n / 10, (k - 1) as nat);
    }
}

/// Appends the canonical lowercase hex rendering of a 16-bit value.
pub fn push_hex_lower_u16(out: &mut Vec<char>, n: u16)
    ensures
        final(out)@ == old(out)@ + hex_lower_str(n as nat),
        final(out)@.len() <= old(out)@.len() + 4,
    decreases n,
{
    if n < 16 {
        out.push(chr_of(n as u8));
        assert(out@ =~= old(out)@ + hex_lower_str(n as nat));
    } else {
        proof {
            lemma_hex_str_len_u16(n as nat);
        }
        push_hex_lower_u16(out, n / 16);
        out.push(chr_of((n % 16) as u8));
        assert(out@ =~= old(out)@ + hex_lower_str(n as nat));
    }
}

/// A 16-bit value has at most 4 hex digits.
proof fn lemma_hex_str_len_u16(n: nat)
    requires
        n < 0x1_0000,
    ensures
        hex_lower_str(n).len() <= 4,
{
    assert(pow(16, 4) == 0x1_0000) by {
        reveal_with_fuel(pow, 5);
    }
    lemma_hex_str_len(n, 4);
}

proof fn lemma_hex_str_len(n: nat, k: nat)
    requires
        k >= 1,
        n < pow(16, k),
    ensures
        hex_lower_str(n).len() <= k,
    decreases n,
{
    if n < 16 {
    } else {
        assert(pow(16, k) == pow(16, (k - 1) as nat) * 16) by {
            lemma_pow_adds(16, (k - 1) as nat, 1);
            lemma_pow1(16);
        }
        assert(n / 16 < pow(16, (k - 1) as nat)) by (nonlinear_arith)
            requires
                n < pow(16, (k - 1) as nat) * 16,
                n >= 16,
        {
        }
        assert(k >= 2) by {
            if k == 1 {
                lemma_pow1(16);
            }
        }
        lemma_hex_str_len(n / 16, (k - 1) as nat);
    }
}

/// Appends a byte as two uppercase hex digits.
pub fn push_hex2_upper(out: &mut Vec<char>, n: u8)
    ensures
        final(out)@ == old(out)@ + hex2_upper(n as nat),
{
    out.push(chr_upper_of(n / 16));
    out.push(chr_upper_of(n % 16));
    assert(out@ =~= old(out)@ + hex2_upper(n as nat));
}

/// Appends a byte as two lowercase hex digits.
pub fn push_hex2_lower(out: &mut Vec<char>, n: u8)
    ensures
        final(out)@ == old(out)@ + hex2_lower(n as nat),
{
    out.push(chr_of(n / 16));
    out.push(chr_of(n % 16));
    assert(out@ =~= old(out)@ + hex2_lower(n as nat));
}

/// Appends a byte as three zero-padded octal digits.
pub fn push_oct3(out: &mut Vec<char>, n: u8)
    ensures
        final(out)@ == old(out)@ + oct3(n as nat),
{
    out.push(chr_of(n / 64));
    out.push(chr_of((n / 8) % 8));
    out.push(chr_of(n % 8));
    assert(out@ =~= old(out)@ + oct3(n as nat));
}

} // verus!

verus! {

/// A string that reads as an unsigned 32-bit decimal number.
pub open spec fn is_dec_u32(s: Seq<char>) -> bool {
    s.len() >= 1 && all_digits(s, 10) && base_val(s, 10) <= u32::MAX
}

/// A string that reads as an unsigned 32-bit binary number.
pub open spec fn is_bin_u32(s: Seq<char>) -> bool {
    s.len() >= 1 && all_digits(s, 2) && base_val(s, 2) <= u32::MAX
}

pub proof fn lemma_pow2_vals()
    ensures
        pow(2, 4) == 0x10,
        pow(2, 8) == 0x100,
        pow(2, 12) == 0x1000,
        pow(2, 16) == 0x1_0000,
        pow(2, 24) == 0x100_0000,
        pow(2, 32) == 0x1_0000_0000,
{
    reveal_with_fuel(pow, 33);
}

/// The whole of `p` read as a decimal `u32`, where it is one.
pub fn parse_dec_u32(p: &Vec<char>) -> (r: Option<u32>)
    ensures
        match r {
            Some(v) => is_dec_u32(p@) && v as nat == base_val(p@, 10),
            None => !is_dec_u32(p@),
        },
{
    if p.len() == 0 {
        return None;
    }
    let mut acc: u64 = 0;
    let mut i: usize = 0;
    while i < p.len()
        invariant
            i <= p@.len(),
            all_digits(p@.take(i as int), 10),
            acc as nat == base_val(p@.take(i as int), 10),
            acc <= u32::MAX,
        decreases p@.len() - i,
    {
        let d = digit_of(p[i]);
        proof {
            assert(p@.take(i + 1) =~= p@.take(i as int).push(p@[i as int]));
            assert(p@.take(i + 1).drop_last() =~= p@.take(i as int));
        }
        if d >= 10 {
            assert(!all_digits(p@, 10));
            return None;
        }
        let tmp: u64 = acc * 10 + d as u64;
        if tmp > u32::MAX as u64 {
            proof {
                lemma_base_val_prefix(p@, i + 1, 10);
            }
            return None;
        }
        acc = tmp;
        i += 1;
    }
    proof {
        assert(p@.take(p@.len() as int) =~= p@);
    }
    Some(acc as u32)
}

/// The bits `p[from..to]` read as a number, at most 32 of them.
pub fn bits_val_u32(p: &Vec<char>, from: usize, to: usize) -> (r: u32)
    requires
        from <= to <= p@.len(),
        to - from <= 32,
        all_digits(p@.subrange(from as int, to as int), 2),
    ensures
        r as nat == base_val(p@.subrange(from as int, to as int), 2),
{
    let mut acc: u64 = 0;
    let mut i: usize = from;
    proof {
        lemma_pow2_vals();
        lemma_pow0(2);
        assert(p@.subrange(from as int, from as int) =~= Seq::<char>::empty());
    }
    while i < to
        invariant
            from <= i <= to <= p@.len(),
            to - from <= 32,
            all_digits(p@.subrange(from as int, to as int), 2),
            acc as nat == base_val(p@.subrange(from as int, i as int), 2),
            (acc as nat) < pow(2, (i - from) as nat),
            pow(2, 32) == 0x1_0000_0000,
        decreases to - i,
    {
        let ghost sub = p@.subrange(from as int, to as int);
        assert(p@[i as int] == sub[i - from]);
        let d = digit_of(p[i]);
        assert(d < 2);
        proof {
            assert(p@.subrange(from as int, i + 1) =~= p@.subrange(from as int, i as int).push(
                p@[i as int],
            ));
            assert(p@.subrange(from as int, i + 1).drop_last() =~= p@.subrange(
                from as int,
                i as int,
            ));
            lemma_pow_adds(2, (i - from) as nat, 1);
            lemma_pow1(2);
            assert(pow(2, ((i + 1) - from) as nat) == pow(2, (i - from) as nat) * 2);
            vstd::arithmetic::power::lemma_pow_increases(2, ((i + 1) - from) as nat, 32);
        }
        acc = acc * 2 + d as u64;
        i += 1;
    }
    proof {
        assert(base_val(p@.subrange(from as int, i as int), 2) == base_val(
            p@.subrange(from as int, to as int),
            2,
        ));
        vstd::arithmetic::power::lemma_pow_increases(2, (to - from) as nat, 32);
    }
    acc as u32
}

/// Whether every character of `p` is a binary digit.
pub fn all_bits(p: &Vec<char>) -> (r: bool)
    ensures
        r == all_digits(p@, 2),
{
    let mut i: usize = 0;
    while i < p.len()
        invariant
            i <= p@.len(),
            all_digits(p@.take(i as int), 2),
        decreases p@.len() - i,
    {
        let d = digit_of(p[i]);
        proof {
            assert(p@.take(i + 1) =~= p@.take(i as int).push(p@[i as int]));
        }
        if d >= 2 {
            assert(!all_digits(p@, 2));
            return false;
        }
        i += 1;
    }
    proof {
        assert(p@.take(p@.len() as int) =~= p@);
    }
    true
}

} // verus!
