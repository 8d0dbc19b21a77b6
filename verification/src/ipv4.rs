//! IPv4: parsing CIDR notation, sampling a uniform address from the block it
//! names, and the named address categories.

use vstd::prelude::*;
use vstd::string::StringExecFns;
use vstd::arithmetic::power::pow;
use vstd::arithmetic::div_mod::{lemma_fundamental_div_mod, lemma_div_denominator};
use crate::digits::{
    all_digits, base_val, bin_str, dec_str, lemma_all_digits_concat, lemma_base_val_concat,
    lemma_bin_str_val, lemma_bin_str_wf, lemma_dec_str_wf, lemma_pow2_vals, parse_dec_u32,
    push_dec_u32,
};
use crate::strutil::{
    chars_to_string, lemma_split_on_concat, lemma_split_on_whole, split_chars, split_on,
    str_eq, str_to_chars, views_of,
};
use crate::codec::{bin32_to_dotted_spec, byte_at, dotted_to_binary_spec, is_bin32, octet_or_zero};
use crate::rng::rand_u32_between;

verus! {

/// A decimal octet as an IPv4 literal writes it: digits only, value in
/// `[0, 255]`, no leading zero.
pub open spec fn is_strict_octet(p: Seq<char>) -> bool {
    p.len() >= 1 && all_digits(p, 10) && base_val(p, 10) <= 255 && (p[0] == '0' ==> p.len() == 1)
}

/// The 32-bit value with the four given bytes, high byte first.
pub open spec fn quad_val(a: nat, b: nat, c: nat, d: nat) -> nat {
    ((a * 256 + b) * 256 + c) * 256 + d
}

/// The 32-bit value of a dotted-decimal IPv4 literal, where the text is one.
pub open spec fn ipv4_literal_val(s: Seq<char>) -> Option<u32> {
    let ps = split_on(s, '.');
    if ps.len() == 4 && is_strict_octet(ps[0]) && is_strict_octet(ps[1]) && is_strict_octet(ps[2])
        && is_strict_octet(ps[3]) {
        Some(
            quad_val(
                base_val(ps[0], 10),
                base_val(ps[1], 10),
                base_val(ps[2], 10),
                base_val(ps[3], 10),
            ) as u32,
        )
    } else {
        None
    }
}

/// A prefix length: decimal digits reading to at most 32.
pub open spec fn prefix4_val(p: Seq<char>) -> Option<nat> {
    if p.len() >= 1 && all_digits(p, 10) && base_val(p, 10) <= 32 {
        Some(base_val(p, 10))
    } else {
        None
    }
}

/// The address and prefix length of an IPv4 CIDR string, where it is valid.
pub open spec fn cidr4_parse(s: Seq<char>) -> Option<(u32, nat)> {
    let ps = split_on(s, '/');
    if ps.len() == 2 {
        match ipv4_literal_val(ps[0]) {
            Some(addr) => match prefix4_val(ps[1]) {
                Some(n) => Some((addr, n)),
                None => None,
            },
            None => None,
        }
    } else {
        None
    }
}

/// The subnet mask of a prefix length; a length of 0 masks nothing.
pub open spec fn mask4(n: nat) -> u32 {
    if n == 0 {
        0u32
    } else {
        0xFFFF_FFFFu32 << ((32 - n) as u32)
    }
}

/// The network address: host bits cleared.
pub open spec fn block_lo(addr: u32, n: nat) -> u32 {
    addr & mask4(n)
}

/// The broadcast address: host bits set.
pub open spec fn block_hi(addr: u32, n: nat) -> u32 {
    block_lo(addr, n) | !mask4(n)
}

/// Dotted-decimal text of four byte values.
pub open spec fn quad4_str(a: nat, b: nat, c: nat, d: nat) -> Seq<char> {
    dec_str(a) + seq!['.'] + dec_str(b) + seq!['.'] + dec_str(c) + seq!['.'] + dec_str(d)
}

/// Dotted-decimal text of a 32-bit value.
pub open spec fn quad_str(v: u32) -> Seq<char> {
    quad4_str(
        v as nat / 0x100_0000,
        (v as nat / 0x1_0000) % 256,
        (v as nat / 256) % 256,
        v as nat % 256,
    )
}

/// What the IPv4 sampler returns: a dotted quad within the block of a valid
/// CIDR string, and the empty string on a malformed one.
pub open spec fn ipv4_in_cidr_output(cidr: Seq<char>, out: Seq<char>) -> bool {
    match cidr4_parse(cidr) {
        Some((addr, n)) => exists|v: u32|
            block_lo(addr, n) <= v <= block_hi(addr, n) && out == quad_str(v),
        None => out == Seq::<char>::empty(),
    }
}

/// What the unconstrained IPv4 generator returns: a dotted quad whose first
/// octet is in `[1, 255]` and whose last is in `[1, 254]`.
pub open spec fn ipv4_random_output(out: Seq<char>) -> bool {
    exists|a: u32, b: u32, c: u32, d: u32|
        1 <= a <= 255 && b <= 255 && c <= 255 && 1 <= d <= 254 && out == quad4_str(
            a as nat,
            b as nat,
            c as nat,
            d as nat,
        )
}

/// Strict octet reader.
fn strict_octet_of(p: &Vec<char>) -> (r: Option<u8>)
    ensures
        match r {
            Some(v) => is_strict_octet(p@) && v as nat == base_val(p@, 10),
            None => !is_strict_octet(p@),
        },
{
    if p.len() == 0 {
        return None;
    }
    if p[0] == '0' && p.len() > 1 {
        return None;
    }
    match parse_dec_u32(p) {
        Some(v) => if v <= 255 {
            Some(v as u8)
        } else {
            None
        },
        None => None,
    }
}

/// Reads a dotted-decimal IPv4 literal.
fn ipv4_literal_of(p: &Vec<char>) -> (r: Option<u32>)
    ensures
        r == ipv4_literal_val(p@),
{
    let parts = split_chars(p, '.');
    let ghost ps = split_on(p@, '.');
    if parts.len() != 4 {
        return None;
    }
    proof {
        assert(views_of(parts@)[0] == parts@[0]@);
        assert(views_of(parts@)[1] == parts@[1]@);
        assert(views_of(parts@)[2] == parts@[2]@);
        assert(views_of(parts@)[3] == parts@[3]@);
    }
    let a = match strict_octet_of(&parts[0]) {
        Some(v) => v,
        None => {
            return None;
        },
    };
    let b = match strict_octet_of(&parts[1]) {
        Some(v) => v,
        None => {
            return None;
        },
    };
    let c = match strict_octet_of(&parts[2]) {
        Some(v) => v,
        None => {
            return None;
        },
    };
    let d = match strict_octet_of(&parts[3]) {
        Some(v) => v,
        None => {
            return None;
        },
    };
    let v: u32 = ((a as u32 * 256 + b as u32) * 256 + c as u32) * 256 + d as u32;
    Some(v)
}

/// Generates a uniformly random IPv4 address within the given CIDR block,
/// network and broadcast addresses included; a malformed CIDR string gives
/// the empty string.
pub fn generate_ipv4_in_cidr(cidr: &str) -> (r: String)
    ensures
        ipv4_in_cidr_output(cidr@, r@),
{
    let chars = str_to_chars(cidr);
    let parts = split_chars(&chars, '/');
    if parts.len() != 2 {
        return String::new();
    }
    proof {
        assert(views_of(parts@)[0] == parts@[0]@);
        assert(views_of(parts@)[1] == parts@[1]@);
    }
    let addr = match ipv4_literal_of(&parts[0]) {
        Some(v) => v,
        None => {
            return String::new();
        },
    };
    let n: u32 = match parse_dec_u32(&parts[1]) {
        Some(v) => if v <= 32 {
            v
        } else {
            return String::new();
        },
        None => {
            return String::new();
        },
    };
    let mask: u32 = if n == 0 {
        0
    } else {
        0xFFFF_FFFFu32 << (32 - n)
    };
    assert(mask == mask4(n as nat));
    let lo: u32 = addr & mask;
    let hi: u32 = lo | !mask;
    assert(lo <= hi) by (bit_vector)
        requires
            hi == lo | !mask,
    ;
    let v = rand_u32_between(lo, hi);
    let mut out: Vec<char> = Vec::new();
    push_dec_u32(&mut out, v / 0x100_0000);
    out.push('.');
    push_dec_u32(&mut out, (v / 0x1_0000) % 256);
    out.push('.');
    push_dec_u32(&mut out, (v / 256) % 256);
    out.push('.');
    push_dec_u32(&mut out, v % 256);
    proof {
        assert(out@ =~= quad_str(v));
        assert(lo == block_lo(addr, n as nat) && hi == block_hi(addr, n as nat));
    }
    chars_to_string(&out)
}

/// Generates an IPv4 address with random octets: the first in `[1, 255]`,
/// the middle two in `[0, 255]`, the last in `[1, 254]`.
fn generate_random_ipv4_address() -> (r: String)
    ensures
        ipv4_random_output(r@),
{
    let a = rand_u32_between(1, 255);
    let b = rand_u32_between(0, 255);
    let c = rand_u32_between(0, 255);
    let d = rand_u32_between(1, 254);
    let mut out: Vec<char> = Vec::new();
    push_dec_u32(&mut out, a);
    out.push('.');
    push_dec_u32(&mut out, b);
    out.push('.');
    push_dec_u32(&mut out, c);
    out.push('.');
    push_dec_u32(&mut out, d);
    proof {
        assert(out@ =~= quad4_str(a as nat, b as nat, c as nat, d as nat));
    }
    chars_to_string(&out)
}

/// Shared address space, 100.64.0.0/10.
fn generate_shared_ipv4_address() -> (r: String)
    ensures
        ipv4_in_cidr_output("100.64.0.0/10"@, r@),
{
    generate_ipv4_in_cidr("100.64.0.0/10")
}

/// One of the three private blocks, chosen uniformly.
fn generate_private_ipv4_address() -> (r: String)
    ensures
        ipv4_in_cidr_output("10.0.0.0/8"@, r@) || ipv4_in_cidr_output("172.16.0.0/12"@, r@)
            || ipv4_in_cidr_output("192.168.0.0/16"@, r@),
{
    let k = rand_u32_between(0, 2);
    if k == 0 {
        generate_ipv4_in_cidr("10.0.0.0/8")
    } else if k == 1 {
        generate_ipv4_in_cidr("172.16.0.0/12")
    } else {
        generate_ipv4_in_cidr("192.168.0.0/16")
    }
}

/// Reserved address space, 240.0.0.0/4.
fn generate_reserved_ipv4_address() -> (r: String)
    ensures
        ipv4_in_cidr_output("240.0.0.0/4"@, r@),
{
    generate_ipv4_in_cidr("240.0.0.0/4")
}

/// Link-local address space, 169.254.0.0/16.
fn generate_link_local_ipv4_address() -> (r: String)
    ensures
        ipv4_in_cidr_output("169.254.0.0/16"@, r@),
{
    generate_ipv4_in_cidr("169.254.0.0/16")
}

/// Benchmarking address space, 198.18.0.0/15.
fn generate_benchmarking_ipv4_address() -> (r: String)
    ensures
        ipv4_in_cidr_output("198.18.0.0/15"@, r@),
{
    generate_ipv4_in_cidr("198.18.0.0/15")
}

/// Multicast address space, 224.0.0.0/4.
fn generate_multicast_ipv4_address() -> (r: String)
    ensures
        ipv4_in_cidr_output("224.0.0.0/4"@, r@),
{
    generate_ipv4_in_cidr("224.0.0.0/4")
}

/// One of the three documentation blocks, chosen uniformly.
fn generate_documentation_ipv4_address() -> (r: String)
    ensures
        ipv4_in_cidr_output("192.0.2.0/24"@, r@) || ipv4_in_cidr_output("198.51.100.0/24"@, r@)
            || ipv4_in_cidr_output("203.0.113.0/24"@, r@),
{
    let k = rand_u32_between(0, 2);
    if k == 0 {
        generate_ipv4_in_cidr("192.0.2.0/24")
    } else if k == 1 {
        generate_ipv4_in_cidr("198.51.100.0/24")
    } else {
        generate_ipv4_in_cidr("203.0.113.0/24")
    }
}

/// What `generate_ipv4` returns for each category name; an unknown name
/// gives the fixed invalid-type message.
pub open spec fn ipv4_dispatch_output(t: Seq<char>, out: Seq<char>) -> bool {
    if t == "random"@ {
        ipv4_random_output(out)
    } else if t == "shared"@ {
        ipv4_in_cidr_output("100.64.0.0/10"@, out)
    } else if t == "private"@ {
        ipv4_in_cidr_output("10.0.0.0/8"@, out) || ipv4_in_cidr_output("172.16.0.0/12"@, out)
            || ipv4_in_cidr_output("192.168.0.0/16"@, out)
    } else if t == "reserved"@ {
        ipv4_in_cidr_output("240.0.0.0/4"@, out)
    } else if t == "link-local"@ {
        ipv4_in_cidr_output("169.254.0.0/16"@, out)
    } else if t == "benchmarking"@ {
        ipv4_in_cidr_output("198.18.0.0/15"@, out)
    } else if t == "multicast"@ {
        ipv4_in_cidr_output("224.0.0.0/4"@, out)
    } else if t == "documentation"@ {
        ipv4_in_cidr_output("192.0.2.0/24"@, out) || ipv4_in_cidr_output("198.51.100.0/24"@, out)
            || ipv4_in_cidr_output("203.0.113.0/24"@, out)
    } else {
        out == "Invalid type received. Available types : Public, Private or Reserved."@
    }
}

/// Generates an IPv4 address of the named category; an unknown name gives
/// the fixed invalid-type message.
pub fn generate_ipv4(ip_type: &str) -> (r: String)
    ensures
        ipv4_dispatch_output(ip_type@, r@),
{
    if str_eq(ip_type, "random") {
        generate_random_ipv4_address()
    } else if str_eq(ip_type, "shared") {
        generate_shared_ipv4_address()
    } else if str_eq(ip_type, "private") {
        generate_private_ipv4_address()
    } else if str_eq(ip_type, "reserved") {
        generate_reserved_ipv4_address()
    } else if str_eq(ip_type, "link-local") {
        generate_link_local_ipv4_address()
    } else if str_eq(ip_type, "benchmarking") {
        generate_benchmarking_ipv4_address()
    } else if str_eq(ip_type, "multicast") {
        generate_multicast_ipv4_address()
    } else if str_eq(ip_type, "documentation") {
        generate_documentation_ipv4_address()
    } else {
        String::from_str("Invalid type received. Available types : Public, Private or Reserved.")
    }
}

/// The bytes of a 32-bit value recombine to the value.
proof fn lemma_quad_bytes(v: u32)
    ensures
        quad_val(
            v as nat / 0x100_0000,
            (v as nat / 0x1_0000) % 256,
            (v as nat / 256) % 256,
            v as nat % 256,
        ) == v as nat,
        v as nat / 0x100_0000 <= 255,
{
    let x = v as int;
    lemma_fundamental_div_mod(x, 256);
    lemma_div_denominator(x, 256, 256);
    lemma_fundamental_div_mod(x / 256, 256);
    lemma_div_denominator(x / 256, 256, 256);
    lemma_fundamental_div_mod(x / 0x1_0000, 256);
    assert(x / 256 / 256 == x / 0x1_0000);
    assert(x / 0x1_0000 / 256 == x / 0x100_0000);
    assert(x / 0x100_0000 <= 255) by {
        assert(x < 0x1_0000_0000);
        if x / 0x100_0000 >= 256 {
            lemma_fundamental_div_mod(x, 0x100_0000);
        }
    }
}

/// Every address that the IPv4 sampler draws from a valid CIDR block lies,
/// read back as its 32-bit value, between the block's network and broadcast
/// addresses, and the network address has no host bits set.
pub proof fn lemma_ipv4_sample_in_block(cidr: Seq<char>, out: Seq<char>, addr: u32, n: nat)
    requires
        cidr4_parse(cidr) == Some((addr, n)),
        ipv4_in_cidr_output(cidr, out),
    ensures
        block_lo(addr, n) & !mask4(n) == 0,
        block_lo(addr, n) <= block_hi(addr, n),
        is_bin32(dotted_to_binary_spec(out)),
        block_lo(addr, n) <= base_val(dotted_to_binary_spec(out), 2) <= block_hi(addr, n),
{
    let lo = block_lo(addr, n);
    let hi = block_hi(addr, n);
    let m = mask4(n);
    assert((addr & m) & !m == 0) by (bit_vector);
    assert(addr & m <= (addr & m) | !m) by (bit_vector);
    let v = choose|v: u32| lo <= v <= hi && out == quad_str(v);
    lemma_quad_round_trip(v);
}

/// Reading a rendered dotted quad back through the permissive dotted-decimal
/// conversion recovers the 32-bit value.
pub proof fn lemma_quad_round_trip(v: u32)
    ensures
        is_bin32(dotted_to_binary_spec(quad_str(v))),
        base_val(dotted_to_binary_spec(quad_str(v)), 2) == v as nat,
{
    lemma_quad_bytes(v);
    let a = v as nat / 0x100_0000;
    let b = (v as nat / 0x1_0000) % 256;
    let c = (v as nat / 256) % 256;
    let d = v as nat % 256;
    lemma_quad4_split(a, b, c, d);
    let s = quad4_str(a, b, c, d);
    let ps = split_on(s, '.');
    lemma_dec_str_wf(a);
    lemma_dec_str_wf(b);
    lemma_dec_str_wf(c);
    lemma_dec_str_wf(d);
    assert(octet_or_zero(ps[0]) == a && octet_or_zero(ps[1]) == b && octet_or_zero(ps[2]) == c
        && octet_or_zero(ps[3]) == d);
    let bits = dotted_to_binary_spec(s);
    assert(bits == bin_str(a, 8) + bin_str(b, 8) + bin_str(c, 8) + bin_str(d, 8));
    lemma_bin_str_wf(a, 8);
    lemma_bin_str_wf(b, 8);
    lemma_bin_str_wf(c, 8);
    lemma_bin_str_wf(d, 8);
    lemma_pow2_vals();
    lemma_bin_str_val(a, 8);
    lemma_bin_str_val(b, 8);
    lemma_bin_str_val(c, 8);
    lemma_bin_str_val(d, 8);
    lemma_base_val_concat(bin_str(a, 8) + bin_str(b, 8) + bin_str(c, 8), bin_str(d, 8), 2);
    lemma_base_val_concat(bin_str(a, 8) + bin_str(b, 8), bin_str(c, 8), 2);
    lemma_base_val_concat(bin_str(a, 8), bin_str(b, 8), 2);
    assert((bin_str(a, 8) + bin_str(b, 8) + bin_str(c, 8)) + bin_str(d, 8) =~= bits);
    assert((bin_str(a, 8) + bin_str(b, 8)) + bin_str(c, 8) =~= bin_str(a, 8) + bin_str(b, 8)
        + bin_str(c, 8));
    assert(base_val(bits, 2) == ((a * 256 + b) * 256 + c) * 256 + d);
    assert(is_bin32(bits));
}

/// A canonical dotted quad splits on '.' into its four octet renderings.
proof fn lemma_quad4_split(a: nat, b: nat, c: nat, d: nat)
    ensures
        split_on(quad4_str(a, b, c, d), '.') == seq![dec_str(a), dec_str(b), dec_str(c), dec_str(d)],
{
    lemma_dec_str_wf(a);
    lemma_dec_str_wf(b);
    lemma_dec_str_wf(c);
    lemma_dec_str_wf(d);
    lemma_no_dot(dec_str(a));
    lemma_no_dot(dec_str(b));
    lemma_no_dot(dec_str(c));
    lemma_no_dot(dec_str(d));
    let s = quad4_str(a, b, c, d);
    let r1 = dec_str(b) + seq!['.'] + dec_str(c) + seq!['.'] + dec_str(d);
    let r2 = dec_str(c) + seq!['.'] + dec_str(d);
    assert(s =~= dec_str(a) + seq!['.'] + r1);
    lemma_split_on_concat(dec_str(a), r1, '.');
    assert(r1 =~= dec_str(b) + seq!['.'] + r2);
    lemma_split_on_concat(dec_str(b), r2, '.');
    lemma_split_on_concat(dec_str(c), dec_str(d), '.');
    lemma_split_on_whole(dec_str(d), '.');
    assert(split_on(s, '.') =~~= seq![dec_str(a), dec_str(b), dec_str(c), dec_str(d)]);
}

/// A decimal rendering holds no '.'.
proof fn lemma_no_dot(s: Seq<char>)
    requires
        all_digits(s, 10),
    ensures
        forall|j: int| 0 <= j < s.len() ==> s[j] != '.',
{
}

/// Dotted-decimal to binary and back is the identity on canonical quads: the
/// rendering of four octet values converts to the 32-bit binary string that
/// carries them, and that string converts back to the same rendering.
pub proof fn lemma_dotted_round_trip(a: nat, b: nat, c: nat, d: nat)
    requires
        a < 256,
        b < 256,
        c < 256,
        d < 256,
    ensures
        is_bin32(dotted_to_binary_spec(quad4_str(a, b, c, d))),
        bin32_to_dotted_spec(dotted_to_binary_spec(quad4_str(a, b, c, d))) == quad4_str(a, b, c, d),
{
    lemma_quad4_split(a, b, c, d);
    let s = quad4_str(a, b, c, d);
    let ps = split_on(s, '.');
    lemma_dec_str_wf(a);
    lemma_dec_str_wf(b);
    lemma_dec_str_wf(c);
    lemma_dec_str_wf(d);
    assert(octet_or_zero(ps[0]) == a && octet_or_zero(ps[1]) == b && octet_or_zero(ps[2]) == c
        && octet_or_zero(ps[3]) == d);
    let bits = dotted_to_binary_spec(s);
    assert(bits == bin_str(a, 8) + bin_str(b, 8) + bin_str(c, 8) + bin_str(d, 8));
    lemma_bin_str_wf(a, 8);
    lemma_bin_str_wf(b, 8);
    lemma_bin_str_wf(c, 8);
    lemma_bin_str_wf(d, 8);
    lemma_pow2_vals();
    lemma_bin_str_val(a, 8);
    lemma_bin_str_val(b, 8);
    lemma_bin_str_val(c, 8);
    lemma_bin_str_val(d, 8);
    lemma_all_digits_concat(bin_str(a, 8), bin_str(b, 8), 2);
    lemma_all_digits_concat(bin_str(a, 8) + bin_str(b, 8), bin_str(c, 8), 2);
    lemma_all_digits_concat(bin_str(a, 8) + bin_str(b, 8) + bin_str(c, 8), bin_str(d, 8), 2);
    assert(all_digits(bits, 2));
    assert(bits.subrange(0, 8) =~= bin_str(a, 8));
    assert(bits.subrange(8, 16) =~= bin_str(b, 8));
    assert(bits.subrange(16, 24) =~= bin_str(c, 8));
    assert(bits.subrange(24, 32) =~= bin_str(d, 8));
    assert(byte_at(bits, 0) == a && byte_at(bits, 1) == b && byte_at(bits, 2) == c && byte_at(
        bits,
        3,
    ) == d);
    assert(bin32_to_dotted_spec(bits) =~= quad4_str(a, b, c, d));
}

} // verus!
