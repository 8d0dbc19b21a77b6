//! IPv6: expanding the written groups of a CIDR prefix to bits, sampling the
//! remaining bits at random, and rendering colon-hex text.

use vstd::prelude::*;
use vstd::string::StringExecFns;
use vstd::arithmetic::power::pow;
use vstd::arithmetic::div_mod::lemma_fundamental_div_mod;
use crate::digits::{
    all_digits, base_val, bin_str, chr_of, digit_chr, digit_of, digit_val, hex_lower_str,
    lemma_all_digits_concat, lemma_base_val_bound, lemma_base_val_concat, lemma_bin_str_val,
    lemma_bin_str_wf, lemma_pow2_vals, bits_val_u32, parse_dec_u32, push_bin_u32,
    push_hex_lower_u16,
};
use crate::strutil::{
    chars_to_string, lemma_split_on_concat, lemma_split_on_whole, split_chars, split_on, str_eq,
    str_to_chars, views_of,
};
use crate::rng::rand_u32_between;

verus! {

/// The four bits of one hex character; a character that is no hex digit
/// contributes no bits at all.
pub open spec fn hex_char_bits(c: char) -> Seq<char> {
    if digit_val(c) < 16 {
        bin_str(digit_val(c), 4)
    } else {
        Seq::empty()
    }
}

/// The bits of the characters of a written group, in order.
pub open spec fn chars_bits(g: Seq<char>) -> Seq<char>
    decreases g.len(),
{
    if g.len() == 0 {
        Seq::empty()
    } else {
        hex_char_bits(g[0]) + chars_bits(g.drop_first())
    }
}

/// The bits of one colon group: an empty group stands for one zero group.
pub open spec fn group_bits(g: Seq<char>) -> Seq<char> {
    if g.len() == 0 {
        seq!['0', '0', '0', '0']
    } else {
        chars_bits(g)
    }
}

/// The bits of all colon groups, in order.
pub open spec fn groups_bits(gs: Seq<Seq<char>>) -> Seq<char>
    decreases gs.len(),
{
    if gs.len() == 0 {
        Seq::empty()
    } else {
        group_bits(gs[0]) + groups_bits(gs.drop_first())
    }
}

pub open spec fn zeros(n: nat) -> Seq<char> {
    Seq::new(n, |i: int| '0')
}

/// The scratch bit string of an address part: the bits of its written
/// groups, then 128 zero bits of padding.
pub open spec fn scratch6(addr: Seq<char>) -> Seq<char> {
    groups_bits(split_on(addr, ':')) + zeros(128)
}

/// A prefix length for IPv6: decimal digits reading to at most 128.
pub open spec fn prefix6_val(p: Seq<char>) -> Option<nat> {
    if p.len() >= 1 && all_digits(p, 10) && base_val(p, 10) <= 128 {
        Some(base_val(p, 10))
    } else {
        None
    }
}

/// The scratch bits and prefix length of an IPv6 CIDR string, where valid.
pub open spec fn cidr6_parse(s: Seq<char>) -> Option<(Seq<char>, nat)> {
    let ps = split_on(s, '/');
    if ps.len() == 2 {
        match prefix6_val(ps[1]) {
            Some(n) => Some((scratch6(ps[0]), n)),
            None => None,
        }
    } else {
        None
    }
}

/// Colon-hex text of a bit string, 16 bits a group, lowercase, without
/// zero padding inside a group.
pub open spec fn render_groups(bits: Seq<char>) -> Seq<char>
    decreases bits.len(),
{
    if bits.len() <= 16 {
        hex_lower_str(base_val(bits, 2))
    } else {
        hex_lower_str(base_val(bits.take(16), 2)) + seq![':'] + render_groups(bits.skip(16))
    }
}

/// What the IPv6 sampler returns: on a valid CIDR whose prefix length falls
/// inside the scratch bits, the rendering of the first `n` scratch bits
/// followed by `128 - n` random bits; the fixed length-error text where the
/// prefix length reaches the end of the scratch bits; the fixed invalid
/// marker on a malformed CIDR.
pub open spec fn ipv6_in_cidr_output(cidr: Seq<char>, out: Seq<char>) -> bool {
    match cidr6_parse(cidr) {
        Some((scratch, n)) => if n < scratch.len() {
            exists|suffix: Seq<char>|
                suffix.len() == 128 - n && all_digits(suffix, 2) && out == render_groups(
                    scratch.take(n as int) + suffix,
                )
        } else {
            out == "The binary string must be exactly 128 bits long"@
        },
        None => out == "Invalid CIDR notation"@,
    }
}

proof fn lemma_chars_bits_push(g: Seq<char>, c: char)
    ensures
        chars_bits(g.push(c)) == chars_bits(g) + hex_char_bits(c),
    decreases g.len(),
{
    if g.len() == 0 {
        assert(g.push(c)[0] == c);
        assert(g.push(c).drop_first() =~= Seq::<char>::empty());
        assert(chars_bits(Seq::<char>::empty()) == Seq::<char>::empty());
        assert(chars_bits(g.push(c)) == hex_char_bits(c) + chars_bits(g.push(c).drop_first()));
        assert(chars_bits(g.push(c)) =~= chars_bits(g) + hex_char_bits(c));
    } else {
        assert(g.push(c)[0] == g[0]);
        assert(g.push(c).drop_first() =~= g.drop_first().push(c));
        lemma_chars_bits_push(g.drop_first(), c);
        assert(chars_bits(g.push(c)) =~= chars_bits(g) + hex_char_bits(c));
    }
}

proof fn lemma_chars_bits_digits(g: Seq<char>)
    ensures
        all_digits(chars_bits(g), 2),
        chars_bits(g).len() % 4 == 0,
    decreases g.len(),
{
    if g.len() > 0 {
        lemma_chars_bits_digits(g.drop_first());
        lemma_bin_str_wf(digit_val(g[0]), 4);
    }
}

proof fn lemma_groups_bits_digits(gs: Seq<Seq<char>>)
    ensures
        all_digits(groups_bits(gs), 2),
    decreases gs.len(),
{
    if gs.len() > 0 {
        lemma_groups_bits_digits(gs.drop_first());
        lemma_chars_bits_digits(gs[0]);
    }
}

/// Appends the bits of one written group.
fn push_group_bits(g: &Vec<char>, out: &mut Vec<char>)
    ensures
        final(out)@ == old(out)@ + group_bits(g@),
{
    if g.len() == 0 {
        out.push('0');
        out.push('0');
        out.push('0');
        out.push('0');
        proof {
            assert(out@ =~= old(out)@ + group_bits(g@));
        }
    } else {
        let mut i: usize = 0;
        proof {
            assert(g@.take(0) =~= Seq::<char>::empty());
            assert(out@ =~= old(out)@ + chars_bits(g@.take(0)));
        }
        while i < g.len()
            invariant
                i <= g@.len(),
                out@ == old(out)@ + chars_bits(g@.take(i as int)),
            decreases g@.len() - i,
        {
            let d = digit_of(g[i]);
            proof {
                assert(g@.take(i + 1) =~= g@.take(i as int).push(g@[i as int]));
                lemma_chars_bits_push(g@.take(i as int), g@[i as int]);
            }
            if d < 16 {
                push_bin_u32(out, d as u32, 4);
            }
            proof {
                assert(out@ =~= old(out)@ + chars_bits(g@.take(i + 1)));
            }
            i += 1;
        }
        proof {
            assert(g@.take(g@.len() as int) =~= g@);
        }
    }
}

/// Renders 128 bits as eight colon-separated lowercase hex groups.
fn render_bits(bits: &Vec<char>) -> (out: Vec<char>)
    requires
        bits@.len() == 128,
        all_digits(bits@, 2),
    ensures
        out@ == render_groups(bits@),
{
    let mut out: Vec<char> = Vec::new();
    let mut k: usize = 0;
    proof {
        assert(bits@.skip(0) =~= bits@);
        assert(out@ + render_groups(bits@) =~= render_groups(bits@));
    }
    while k < 8
        invariant
            k <= 8,
            bits@.len() == 128,
            all_digits(bits@, 2),
            k < 8 ==> render_groups(bits@) == out@ + render_groups(bits@.skip(16 * k as int)),
            k == 8 ==> render_groups(bits@) == out@,
        decreases 8 - k,
    {
        let ghost rest = bits@.skip(16 * k as int);
        proof {
            assert(rest.take(16) =~= bits@.subrange(16 * k as int, 16 * k as int + 16));
            assert(forall|j: int|
                0 <= j < 16 ==> #[trigger] bits@.subrange(
                    16 * k as int,
                    16 * k as int + 16,
                )[j] == bits@[16 * k as int + j]);
        }
        let v = bits_val_u32(bits, 16 * k, 16 * k + 16);
        proof {
            lemma_base_val_bound(bits@.subrange(16 * k as int, 16 * k as int + 16), 2);
            lemma_pow2_vals();
        }
        push_hex_lower_u16(&mut out, v as u16);
        if k < 7 {
            out.push(':');
            proof {
                assert(rest.skip(16) =~= bits@.skip(16 * (k + 1)));
                assert(rest.len() > 16);
                assert(render_groups(rest) == hex_lower_str(base_val(rest.take(16), 2))
                    + seq![':'] + render_groups(rest.skip(16)));
                assert(render_groups(bits@) =~= out@ + render_groups(bits@.skip(16 * (k + 1))));
            }
        } else {
            proof {
                assert(rest.len() == 16);
                assert(rest.take(16) =~= rest);
                assert(render_groups(rest) == hex_lower_str(base_val(rest, 2)));
                assert(render_groups(bits@) =~= out@);
            }
        }
        k += 1;
    }
    out
}

/// Generates a random IPv6 address whose first `n` bits follow the CIDR
/// prefix as written (empty groups stand for one zero group each; `::`
/// abbreviations are not expanded further) and whose remaining bits are
/// random. A malformed CIDR gives the fixed invalid marker.
pub fn generate_ipv6_address(cidr: &str) -> (r: String)
    ensures
        ipv6_in_cidr_output(cidr@, r@),
{
    let chars = str_to_chars(cidr);
    let parts = split_chars(&chars, '/');
    if parts.len() != 2 {
        return String::from_str("Invalid CIDR notation");
    }
    proof {
        assert(views_of(parts@)[0] == parts@[0]@);
        assert(views_of(parts@)[1] == parts@[1]@);
    }
    let n: u32 = match parse_dec_u32(&parts[1]) {
        Some(v) => if v <= 128 {
            v
        } else {
            return String::from_str("Invalid CIDR notation");
        },
        None => {
            return String::from_str("Invalid CIDR notation");
        },
    };
    let groups = split_chars(&parts[0], ':');
    let ghost gs = split_on(parts@[0]@, ':');
    let mut bits: Vec<char> = Vec::new();
    let mut k: usize = 0;
    proof {
        assert(gs.skip(0) =~~= gs);
        assert(bits@ + groups_bits(gs) =~= groups_bits(gs));
    }
    while k < groups.len()
        invariant
            k <= groups@.len(),
            views_of(groups@) == gs,
            groups_bits(gs) == bits@ + groups_bits(gs.skip(k as int)),
        decreases groups@.len() - k,
    {
        proof {
            assert(views_of(groups@)[k as int] == groups@[k as int]@);
            assert(gs.skip(k as int)[0] == gs[k as int]);
            assert(gs.skip(k as int).drop_first() =~~= gs.skip(k as int + 1));
            assert(groups_bits(gs.skip(k as int)) == group_bits(gs[k as int]) + groups_bits(
                gs.skip(k as int + 1),
            ));
        }
        push_group_bits(&groups[k], &mut bits);
        proof {
            assert(groups_bits(gs) =~= bits@ + groups_bits(gs.skip(k as int + 1)));
        }
        k += 1;
    }
    proof {
        assert(gs.skip(gs.len() as int) =~~= Seq::<Seq<char>>::empty());
        assert(bits@ =~= groups_bits(gs));
        lemma_groups_bits_digits(gs);
    }
    let ghost explicit = bits@;
    let mut z: usize = 0;
    while z < 128
        invariant
            z <= 128,
            bits@ == explicit + zeros(z as nat),
        decreases 128 - z,
    {
        bits.push('0');
        proof {
            assert(explicit + zeros(z as nat + 1) =~= (explicit + zeros(z as nat)).push('0'));
        }
        z += 1;
    }
    proof {
        assert(bits@ == scratch6(parts@[0]@));
        assert(all_digits(bits@, 2)) by {
            assert(forall|j: int|
                0 <= j < 128 ==> #[trigger] zeros(128)[j] == '0');
        }
    }
    if (n as usize) < bits.len() {
        let mut result: Vec<char> = Vec::new();
        let mut i: usize = 0;
        proof {
            assert(result@ =~= bits@.take(0));
        }
        while i < n as usize
            invariant
                i <= n as usize,
                n as usize <= bits@.len(),
                result@ == bits@.take(i as int),
            decreases n as usize - i,
        {
            let c = bits[i];
            result.push(c);
            proof {
                assert(bits@.take(i + 1) =~= bits@.take(i as int).push(bits@[i as int]));
            }
            i += 1;
        }
        let count: u32 = 128 - n;
        let mut j: u32 = 0;
        while j < count
            invariant
                j <= count,
                result@.len() == n + j,
                result@.take(n as int) == bits@.take(n as int),
                all_digits(result@.skip(n as int), 2),
            decreases count - j,
        {
            let b = rand_u32_between(0, 1);
            let ghost before = result@;
            result.push(if b == 0 {
                '0'
            } else {
                '1'
            });
            proof {
                assert(result@.take(n as int) =~= before.take(n as int));
                assert(result@.skip(n as int) =~= before.skip(n as int).push(result@.last()));
            }
            j += 1;
        }
        proof {
            let suffix = result@.skip(n as int);
            assert(suffix.len() == 128 - n);
            assert(result@ =~= bits@.take(n as int) + suffix);
            assert(all_digits(bits@.take(n as int), 2));
            assert(all_digits(result@, 2)) by {
                assert(forall|j: int|
                    0 <= j < result@.len() ==> result@[j] == (bits@.take(n as int) + suffix)[j]);
            }
            assert(result@.len() == 128);
        }
        let out = render_bits(&result);
        proof {
            let suffix = result@.skip(n as int);
            assert(out@ == render_groups(bits@.take(n as int) + suffix));
        }
        chars_to_string(&out)
    } else {
        String::from_str("The binary string must be exactly 128 bits long")
    }
}

/// Benchmarking address space, 2001:2::/48.
fn generate_benchmarking_ipv6_address() -> (r: String)
    ensures
        ipv6_in_cidr_output("2001:2::/48"@, r@),
{
    generate_ipv6_address("2001:2::/48")
}

/// Documentation address space, 2001:db8::/32.
fn generate_documentation_ipv6_address() -> (r: String)
    ensures
        ipv6_in_cidr_output("2001:db8::/32"@, r@),
{
    generate_ipv6_address("2001:db8::/32")
}

/// Multicast address space, ff00::/8.
fn generate_multicast_ipv6_address() -> (r: String)
    ensures
        ipv6_in_cidr_output("ff00::/8"@, r@),
{
    generate_ipv6_address("ff00::/8")
}

/// A fully random IPv6 address, ::/0.
fn generate_random_ipv6_address() -> (r: String)
    ensures
        ipv6_in_cidr_output("::/0"@, r@),
{
    generate_ipv6_address("::/0")
}

/// Unicast link-local address space, fe80::/10.
fn generate_unicast_link_local_ipv6_address() -> (r: String)
    ensures
        ipv6_in_cidr_output("fe80::/10"@, r@),
{
    generate_ipv6_address("fe80::/10")
}

/// Unique local address space, fc00::/7.
fn generate_unique_local_ipv6_address() -> (r: String)
    ensures
        ipv6_in_cidr_output("fc00::/7"@, r@),
{
    generate_ipv6_address("fc00::/7")
}

/// What `generate_ipv6` returns for each category name; an unknown name
/// gives the fixed invalid-type message.
pub open spec fn ipv6_dispatch_output(t: Seq<char>, out: Seq<char>) -> bool {
    if t == "benchmarking"@ {
        ipv6_in_cidr_output("2001:2::/48"@, out)
    } else if t == "documentation"@ {
        ipv6_in_cidr_output("2001:db8::/32"@, out)
    } else if t == "multicast"@ {
        ipv6_in_cidr_output("ff00::/8"@, out)
    } else if t == "random"@ {
        ipv6_in_cidr_output("::/0"@, out)
    } else if t == "unicast-link-local"@ {
        ipv6_in_cidr_output("fe80::/10"@, out)
    } else if t == "unique-local"@ {
        ipv6_in_cidr_output("fc00::/7"@, out)
    } else {
        out == "Invalid type received. Available types : Public, Private or Reserved."@
    }
}

/// Generates an IPv6 address of the named category; an unknown name gives
/// the fixed invalid-type message.
pub fn generate_ipv6(ip_type: &str) -> (r: String)
    ensures
        ipv6_dispatch_output(ip_type@, r@),
{
    if str_eq(ip_type, "benchmarking") {
        generate_benchmarking_ipv6_address()
    } else if str_eq(ip_type, "documentation") {
        generate_documentation_ipv6_address()
    } else if str_eq(ip_type, "multicast") {
        generate_multicast_ipv6_address()
    } else if str_eq(ip_type, "random") {
        generate_random_ipv6_address()
    } else if str_eq(ip_type, "unicast-link-local") {
        generate_unicast_link_local_ipv6_address()
    } else if str_eq(ip_type, "unique-local") {
        generate_unique_local_ipv6_address()
    } else {
        String::from_str("Invalid type received. Available types : Public, Private or Reserved.")
    }
}

/// A group written in full, canonically: four lowercase hex digits, the
/// first of them not zero.
pub open spec fn canonical_group(g: Seq<char>) -> bool {
    g.len() == 4 && all_digits(g, 16) && (forall|j: int|
        0 <= j < 4 ==> digit_chr(digit_val(#[trigger] g[j])) == g[j]) && g[0] != '0'
}

/// Eight groups joined with ':'.
pub open spec fn join8(gs: Seq<Seq<char>>) -> Seq<char> {
    gs[0] + seq![':'] + gs[1] + seq![':'] + gs[2] + seq![':'] + gs[3] + seq![':'] + gs[4]
        + seq![':'] + gs[5] + seq![':'] + gs[6] + seq![':'] + gs[7]
}

/// The canonical rendering of four hex digit values, the first nonzero.
proof fn lemma_hex4_render(d0: nat, d1: nat, d2: nat, d3: nat)
    requires
        1 <= d0 < 16,
        d1 < 16,
        d2 < 16,
        d3 < 16,
    ensures
        hex_lower_str(((d0 * 16 + d1) * 16 + d2) * 16 + d3) == seq![
            digit_chr(d0),
            digit_chr(d1),
            digit_chr(d2),
            digit_chr(d3),
        ],
{
    let v2 = d0 * 16 + d1;
    let v1 = v2 * 16 + d2;
    let v = v1 * 16 + d3;
    lemma_fundamental_div_mod(v as int, 16);
    assert(v / 16 == v1 && v % 16 == d3);
    lemma_fundamental_div_mod(v1 as int, 16);
    assert(v1 / 16 == v2 && v1 % 16 == d2);
    lemma_fundamental_div_mod(v2 as int, 16);
    assert(v2 / 16 == d0 && v2 % 16 == d1);
    assert(hex_lower_str(d0) =~= seq![digit_chr(d0)]);
    assert(hex_lower_str(v2) =~= seq![digit_chr(d0), digit_chr(d1)]);
    assert(hex_lower_str(v1) =~= seq![digit_chr(d0), digit_chr(d1), digit_chr(d2)]);
    assert(hex_lower_str(v) =~= seq![digit_chr(d0), digit_chr(d1), digit_chr(d2), digit_chr(d3)]);
}

/// The bits of a canonical group read back as the group's value, and render
/// back as the group.
#[verifier::rlimit(60)]
proof fn lemma_canonical_group_bits(g: Seq<char>)
    requires
        canonical_group(g),
    ensures
        group_bits(g).len() == 16,
        all_digits(group_bits(g), 2),
        hex_lower_str(base_val(group_bits(g), 2)) == g,
{
    let d0 = digit_val(g[0]);
    let d1 = digit_val(g[1]);
    let d2 = digit_val(g[2]);
    let d3 = digit_val(g[3]);
    let b0 = bin_str(d0, 4);
    let b1 = bin_str(d1, 4);
    let b2 = bin_str(d2, 4);
    let b3 = bin_str(d3, 4);
    reveal_with_fuel(chars_bits, 6);
    assert(g.drop_first() =~= seq![g[1], g[2], g[3]]);
    assert(g.drop_first().drop_first() =~= seq![g[2], g[3]]);
    assert(g.drop_first().drop_first().drop_first() =~= seq![g[3]]);
    assert(g.drop_first().drop_first().drop_first().drop_first() =~= Seq::<char>::empty());
    assert(chars_bits(g) =~= b0 + (b1 + (b2 + (b3 + Seq::<char>::empty()))));
    assert(group_bits(g) =~= ((b0 + b1) + b2) + b3);
    lemma_bin_str_wf(d0, 4);
    lemma_bin_str_wf(d1, 4);
    lemma_bin_str_wf(d2, 4);
    lemma_bin_str_wf(d3, 4);
    lemma_pow2_vals();
    lemma_bin_str_val(d0, 4);
    lemma_bin_str_val(d1, 4);
    lemma_bin_str_val(d2, 4);
    lemma_bin_str_val(d3, 4);
    lemma_all_digits_concat(b0, b1, 2);
    lemma_all_digits_concat(b0 + b1, b2, 2);
    lemma_all_digits_concat((b0 + b1) + b2, b3, 2);
    lemma_base_val_concat(b0, b1, 2);
    lemma_base_val_concat(b0 + b1, b2, 2);
    lemma_base_val_concat((b0 + b1) + b2, b3, 2);
    assert(base_val(group_bits(g), 2) == ((d0 * 16 + d1) * 16 + d2) * 16 + d3);
    assert(1 <= d0 < 16) by {
        assert(digit_chr(digit_val(g[0])) == g[0]);
    }
    lemma_hex4_render(d0, d1, d2, d3);
    assert(seq![digit_chr(d0), digit_chr(d1), digit_chr(d2), digit_chr(d3)] =~= g);
}

/// With prefix length 128 and a prefix written in full — eight canonical
/// groups — no randomness is injected: the sampler's output is the prefix
/// itself.
#[verifier::rlimit(100)]
pub proof fn lemma_ipv6_full_prefix(gs: Seq<Seq<char>>, out: Seq<char>)
    requires
        gs.len() == 8,
        forall|k: int| 0 <= k < 8 ==> canonical_group(#[trigger] gs[k]),
        ipv6_in_cidr_output(join8(gs) + "/128"@, out),
    ensures
        out == join8(gs),
{
    let addr = join8(gs);
    let cidr = addr + "/128"@;
    reveal_strlit("/128");
    reveal_strlit("128");
    assert forall|j: int| 0 <= j < addr.len() implies addr[j] != '/' by {
        lemma_join8_char(gs, j);
    }
    assert(cidr =~= addr + seq!['/'] + "128"@);
    lemma_split_on_concat(addr, "128"@, '/');
    lemma_split_on_whole("128"@, '/');
    let ps = split_on(cidr, '/');
    assert(ps =~~= seq![addr, "128"@]);
    let p = "128"@;
    assert(p.len() == 3 && p[0] == '1' && p[1] == '2' && p[2] == '8');
    assert(p.drop_last() =~= seq!['1', '2']);
    assert(p.drop_last().drop_last() =~= seq!['1']);
    assert(p.drop_last().drop_last().drop_last() =~= Seq::<char>::empty());
    assert(base_val(Seq::<char>::empty(), 10) == 0);
    assert(base_val(seq!['1'], 10) == 1) by {
        assert(seq!['1'].drop_last() =~= Seq::<char>::empty());
        assert(seq!['1'].last() == '1');
    }
    assert(base_val(seq!['1', '2'], 10) == 12) by {
        assert(seq!['1', '2'].drop_last() =~= seq!['1']);
        assert(seq!['1', '2'].last() == '2');
    }
    assert(base_val(p, 10) == 128);
    assert(prefix6_val(p) == Some(128nat));
    lemma_join8_split(gs);
    let gbits = groups_bits(split_on(addr, ':'));
    let scratch = scratch6(addr);
    lemma_groups_bits_len8(gs);
    assert(gbits.len() == 128);
    assert(scratch.len() == 256);
    assert(cidr6_parse(cidr) == Some((scratch, 128nat)));
    let suffix = choose|suffix: Seq<char>|
        suffix.len() == 128 - 128 && all_digits(suffix, 2) && out == render_groups(
            scratch.take(128) + suffix,
        );
    assert(suffix =~= Seq::<char>::empty());
    assert(scratch.take(128) =~= gbits);
    assert(scratch.take(128) + suffix =~= gbits);
    lemma_render_join8(gs);
}

/// No character of eight joined canonical groups is '/'.
proof fn lemma_join8_char(gs: Seq<Seq<char>>, j: int)
    requires
        gs.len() == 8,
        forall|k: int| 0 <= k < 8 ==> canonical_group(#[trigger] gs[k]),
        0 <= j < join8(gs).len(),
    ensures
        join8(gs)[j] != '/',
{
    let c = join8(gs)[j];
    assert(c == ':' || digit_val(c) < 16) by {
        lemma_join8_member(gs, j);
    }
}

/// Every character of eight joined groups is a character of some group, or ':'.
proof fn lemma_join8_member(gs: Seq<Seq<char>>, j: int)
    requires
        gs.len() == 8,
        forall|k: int| 0 <= k < 8 ==> canonical_group(#[trigger] gs[k]),
        0 <= j < join8(gs).len(),
    ensures
        join8(gs)[j] == ':' || digit_val(join8(gs)[j]) < 16,
{
}

/// Eight canonical groups carry 16 bits each.
proof fn lemma_groups_bits_len8(gs: Seq<Seq<char>>)
    requires
        gs.len() == 8,
        forall|k: int| 0 <= k < 8 ==> canonical_group(#[trigger] gs[k]),
    ensures
        groups_bits(gs).len() == 128,
{
    assert(gs.skip(0) =~~= gs);
    lemma_groups_bits_suffix_len(gs, 0);
}

proof fn lemma_groups_bits_suffix_len(gs: Seq<Seq<char>>, k: int)
    requires
        gs.len() == 8,
        forall|k: int| 0 <= k < 8 ==> canonical_group(#[trigger] gs[k]),
        0 <= k <= 8,
    ensures
        groups_bits(gs.skip(k)).len() == 16 * (8 - k),
    decreases 8 - k,
{
    if k == 8 {
        assert(gs.skip(8) =~~= Seq::<Seq<char>>::empty());
    } else {
        assert(gs.skip(k)[0] == gs[k]);
        assert(gs.skip(k).drop_first() =~~= gs.skip(k + 1));
        lemma_canonical_group_bits(gs[k]);
        lemma_groups_bits_suffix_len(gs, k + 1);
    }
}

/// Joining eight separator-free groups and splitting on ':' recovers them.
proof fn lemma_join8_split(gs: Seq<Seq<char>>)
    requires
        gs.len() == 8,
        forall|k: int| 0 <= k < 8 ==> canonical_group(#[trigger] gs[k]),
    ensures
        split_on(join8(gs), ':') == gs,
        groups_bits(split_on(join8(gs), ':')) == groups_bits(gs),
{
    let r6 = gs[6] + seq![':'] + gs[7];
    let r5 = gs[5] + seq![':'] + r6;
    let r4 = gs[4] + seq![':'] + r5;
    let r3 = gs[3] + seq![':'] + r4;
    let r2 = gs[2] + seq![':'] + r3;
    let r1 = gs[1] + seq![':'] + r2;
    assert forall|k: int, j: int| 0 <= k < 8 && 0 <= j < gs[k].len() implies #[trigger] gs[k][j]
        != ':' by {
        assert(canonical_group(gs[k]));
        assert(digit_val(gs[k][j]) < 16);
    }
    lemma_split_on_whole(gs[7], ':');
    lemma_split_on_concat(gs[6], gs[7], ':');
    lemma_split_on_concat(gs[5], r6, ':');
    lemma_split_on_concat(gs[4], r5, ':');
    lemma_split_on_concat(gs[3], r4, ':');
    lemma_split_on_concat(gs[2], r3, ':');
    lemma_split_on_concat(gs[1], r2, ':');
    assert(join8(gs) =~= gs[0] + seq![':'] + r1);
    lemma_split_on_concat(gs[0], r1, ':');
    assert(r1 =~= gs[1] + seq![':'] + r2);
    assert(r2 =~= gs[2] + seq![':'] + r3);
    assert(r3 =~= gs[3] + seq![':'] + r4);
    assert(r4 =~= gs[4] + seq![':'] + r5);
    assert(r5 =~= gs[5] + seq![':'] + r6);
    assert(split_on(join8(gs), ':') =~~= gs);
}

/// Rendering the bits of eight canonical groups gives the joined groups.
proof fn lemma_render_join8(gs: Seq<Seq<char>>)
    requires
        gs.len() == 8,
        forall|k: int| 0 <= k < 8 ==> canonical_group(#[trigger] gs[k]),
    ensures
        render_groups(groups_bits(gs)) == join8(gs),
{
    lemma_render_join8_suffix(gs, 0);
    assert(gs.skip(0) =~~= gs);
    reveal_with_fuel(join_from, 10);
    assert(join_from(gs, 0) =~= join8(gs));
}

/// The groups from position `k` on, joined with ':'.
spec fn join_from(gs: Seq<Seq<char>>, k: int) -> Seq<char>
    decreases gs.len() - k,
{
    if k < 0 || k >= gs.len() {
        Seq::empty()
    } else if k == gs.len() - 1 {
        gs[k]
    } else {
        gs[k] + seq![':'] + join_from(gs, k + 1)
    }
}

proof fn lemma_render_join8_suffix(gs: Seq<Seq<char>>, k: int)
    requires
        gs.len() == 8,
        forall|k: int| 0 <= k < 8 ==> canonical_group(#[trigger] gs[k]),
        0 <= k < 8,
    ensures
        render_groups(groups_bits(gs.skip(k))) == join_from(gs, k),
    decreases 8 - k,
{
    let bits = groups_bits(gs.skip(k));
    assert(gs.skip(k)[0] == gs[k]);
    assert(gs.skip(k).drop_first() =~~= gs.skip(k + 1));
    assert(bits == group_bits(gs[k]) + groups_bits(gs.skip(k + 1)));
    lemma_canonical_group_bits(gs[k]);
    lemma_groups_bits_suffix_len(gs, k + 1);
    if k == 7 {
        assert(gs.skip(8) =~~= Seq::<Seq<char>>::empty());
        assert(bits =~= group_bits(gs[7]));
        assert(bits.len() == 16);
        assert(render_groups(bits) == hex_lower_str(base_val(bits, 2)));
    } else {
        lemma_render_join8_suffix(gs, k + 1);
        assert(bits.len() == 16 * (8 - k));
        assert(bits.len() > 16);
        assert(bits.take(16) =~= group_bits(gs[k]));
        assert(bits.skip(16) =~= groups_bits(gs.skip(k + 1)));
        assert(render_groups(bits) == hex_lower_str(base_val(bits.take(16), 2)) + seq![':']
            + render_groups(bits.skip(16)));
        assert(render_groups(bits) =~= join_from(gs, k));
    }
}

/// With a zero prefix length no bit of the written prefix reaches the
/// output: the sampler's result is the rendering of 128 unconstrained bits.
pub proof fn lemma_ipv6_zero_prefix(cidr: Seq<char>, out: Seq<char>, scratch: Seq<char>)
    requires
        cidr6_parse(cidr) == Some((scratch, 0nat)),
        ipv6_in_cidr_output(cidr, out),
    ensures
        exists|suffix: Seq<char>|
            suffix.len() == 128 && all_digits(suffix, 2) && out == render_groups(suffix),
{
    assert(0 < scratch.len()) by {
        assert(scratch6(split_on(cidr, '/')[0]).len() >= zeros(128).len());
    }
    let suffix = choose|suffix: Seq<char>|
        suffix.len() == 128 - 0 && all_digits(suffix, 2) && out == render_groups(
            scratch.take(0) + suffix,
        );
    assert(scratch.take(0) + suffix =~= suffix);
}

} // verus!
