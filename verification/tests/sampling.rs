use ipgen::{generate_ipv4, generate_ipv4_in_cidr, generate_ipv6, generate_ipv6_address};

const INVALID_TYPE: &str = "Invalid type received. Available types : Public, Private or Reserved.";

fn octets(s: &str) -> Vec<u32> {
    s.split('.').map(|p| p.parse::<u32>().unwrap()).collect()
}

fn ip_value(s: &str) -> u32 {
    let o = octets(s);
    assert_eq!(o.len(), 4);
    (o[0] << 24) | (o[1] << 16) | (o[2] << 8) | o[3]
}

#[test]
fn cidr_v4_block_24() {
    for _ in 0..100 {
        let out = generate_ipv4_in_cidr("192.168.1.0/24");
        let o = octets(&out);
        assert_eq!(o.len(), 4);
        assert_eq!(&o[0..3], &[192, 168, 1]);
        assert!(o[3] <= 255);
    }
}

#[test]
fn cidr_v4_sampled_value_in_range() {
    for _ in 0..100 {
        let out = generate_ipv4_in_cidr("10.20.30.0/26");
        let v = ip_value(&out);
        let lo = ip_value("10.20.30.0");
        assert!(lo <= v && v <= lo + 63);
    }
}

#[test]
fn cidr_v4_host_route_is_exact() {
    assert_eq!(generate_ipv4_in_cidr("8.8.8.8/32"), "8.8.8.8");
}

#[test]
fn cidr_v4_invalid_inputs_give_empty() {
    assert_eq!(generate_ipv4_in_cidr("1.2.3.4"), "");
    assert_eq!(generate_ipv4_in_cidr("1.2.3/24"), "");
    assert_eq!(generate_ipv4_in_cidr("1.2.3.4/33"), "");
    assert_eq!(generate_ipv4_in_cidr("1.2.3.4/x"), "");
    assert_eq!(generate_ipv4_in_cidr("1.2.3.256/8"), "");
    assert_eq!(generate_ipv4_in_cidr("010.2.3.4/8"), "");
    assert_eq!(generate_ipv4_in_cidr("a.b.c.d/8"), "");
}

#[test]
fn cidr_v4_zero_prefix_varies() {
    let mut seen = std::collections::HashSet::new();
    for _ in 0..100 {
        seen.insert(generate_ipv4_in_cidr("0.0.0.0/0"));
    }
    assert!(seen.len() > 1);
}

#[test]
fn generate_ipv4_categories() {
    for _ in 0..50 {
        let o = octets(&generate_ipv4("shared"));
        assert_eq!(o[0], 100);
        assert!((64..=127).contains(&o[1]));

        let o = octets(&generate_ipv4("private"));
        assert!(o[0] == 10 || (o[0] == 172 && (16..=31).contains(&o[1])) || (o[0] == 192 && o[1] == 168));

        let o = octets(&generate_ipv4("reserved"));
        assert!((240..=255).contains(&o[0]));

        let o = octets(&generate_ipv4("link-local"));
        assert_eq!(&o[0..2], &[169, 254]);

        let o = octets(&generate_ipv4("benchmarking"));
        assert!(o[0] == 198 && (18..=19).contains(&o[1]));

        let o = octets(&generate_ipv4("multicast"));
        assert!((224..=239).contains(&o[0]));

        let o = octets(&generate_ipv4("documentation"));
        assert!(
            (o[0] == 192 && o[1] == 0 && o[2] == 2)
                || (o[0] == 198 && o[1] == 51 && o[2] == 100)
                || (o[0] == 203 && o[1] == 0 && o[2] == 113)
        );

        let o = octets(&generate_ipv4("random"));
        assert!((1..=255).contains(&o[0]));
        assert!((1..=254).contains(&o[3]));
    }
}

#[test]
fn generate_ipv4_unknown_category() {
    assert_eq!(generate_ipv4("bogus"), INVALID_TYPE);
    assert_eq!(generate_ipv4(""), INVALID_TYPE);
    assert_eq!(generate_ipv4("Private"), INVALID_TYPE);
}

fn check_ipv6_form(s: &str) -> Vec<String> {
    let groups: Vec<String> = s.split(':').map(|g| g.to_string()).collect();
    assert_eq!(groups.len(), 8, "unexpected form: {}", s);
    for g in &groups {
        assert!(!g.is_empty() && g.len() <= 4);
        assert!(g.chars().all(|c| c.is_ascii_hexdigit() && !c.is_ascii_uppercase()));
        if g.len() > 1 {
            assert!(!g.starts_with('0'), "zero-padded group in {}", s);
        }
    }
    groups
}

#[test]
fn ipv6_fully_specified_prefix_is_returned_exactly() {
    for _ in 0..10 {
        let out = generate_ipv6_address("2001:1db8:1111:2222:3333:4444:5555:6666/128");
        assert_eq!(out, "2001:1db8:1111:2222:3333:4444:5555:6666");
    }
}

#[test]
fn ipv6_zero_prefix_is_well_formed_and_varies() {
    let mut firsts = std::collections::HashSet::new();
    for _ in 0..100 {
        let out = generate_ipv6_address("::/0");
        let groups = check_ipv6_form(&out);
        firsts.insert(groups[0].clone());
    }
    assert!(firsts.len() > 1);
}

#[test]
fn ipv6_prefix_bits_are_kept() {
    // groups expand literally, so the 32 fixed bits of "2001:db8::" are
    // 0x2001 then 0xdb80: "db8" gives twelve bits and the first empty group
    // supplies four zero bits
    for _ in 0..50 {
        let out = generate_ipv6_address("2001:db8::/32");
        let groups = check_ipv6_form(&out);
        assert_eq!(groups[0], "2001");
        assert_eq!(groups[1], "db80");
    }
}

#[test]
fn ipv6_invalid_inputs() {
    assert_eq!(generate_ipv6_address("abc"), "Invalid CIDR notation");
    assert_eq!(generate_ipv6_address("::/129"), "Invalid CIDR notation");
    assert_eq!(generate_ipv6_address("::/x"), "Invalid CIDR notation");
    assert_eq!(generate_ipv6_address("::"), "Invalid CIDR notation");
}

#[test]
fn ipv6_degenerate_full_prefix_without_bits() {
    // the address part expands to no bits at all, so the 128-bit prefix
    // reaches the end of the zero padding and no address can be built
    assert_eq!(
        generate_ipv6_address("zz/128"),
        "The binary string must be exactly 128 bits long"
    );
}

#[test]
fn generate_ipv6_categories() {
    for _ in 0..20 {
        let g = check_ipv6_form(&generate_ipv6("benchmarking"));
        assert_eq!(g[0], "2001");
        assert_eq!(g[1], "2000");

        let g = check_ipv6_form(&generate_ipv6("documentation"));
        assert_eq!(g[0], "2001");
        assert_eq!(g[1], "db80");

        let g = check_ipv6_form(&generate_ipv6("multicast"));
        let first = u32::from_str_radix(&g[0], 16).unwrap();
        assert_eq!(first >> 8, 0xff);

        check_ipv6_form(&generate_ipv6("random"));

        let g = check_ipv6_form(&generate_ipv6("unicast-link-local"));
        let first = u32::from_str_radix(&g[0], 16).unwrap();
        assert_eq!(first >> 6, 0xfe80 >> 6);

        let g = check_ipv6_form(&generate_ipv6("unique-local"));
        let first = u32::from_str_radix(&g[0], 16).unwrap();
        assert_eq!(first >> 9, 0xfc00 >> 9);
    }
}

#[test]
fn generate_ipv6_unknown_category() {
    assert_eq!(generate_ipv6("bogus"), INVALID_TYPE);
}

#[test]
fn ipv6_bits_vary_across_trials() {
    // with a zero-length prefix every bit is random: over many trials the
    // low group must take more than one value
    let mut lows = std::collections::HashSet::new();
    for _ in 0..100 {
        let out = generate_ipv6_address("::/0");
        let groups = check_ipv6_form(&out);
        lows.insert(groups[7].clone());
    }
    assert!(lows.len() > 1);
}
