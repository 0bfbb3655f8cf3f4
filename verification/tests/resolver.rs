use ruscan::errors::SetupErrorKind;
use ruscan::network::{domain_addresses, is_valid_ip, parse_cidr, parse_ip_range};

#[test]
fn cidr_slash_30_excludes_network_and_broadcast() {
    let ips = parse_cidr("192.168.1.0/30").unwrap();
    assert_eq!(ips, vec!["192.168.1.1".to_string(), "192.168.1.2".to_string()]);
}

#[test]
fn cidr_slash_31_keeps_both_addresses() {
    let ips = parse_cidr("10.0.0.0/31").unwrap();
    assert_eq!(ips, vec!["10.0.0.0".to_string(), "10.0.0.1".to_string()]);
}

#[test]
fn cidr_slash_32_is_the_single_address() {
    let ips = parse_cidr("10.1.2.3/32").unwrap();
    assert_eq!(ips, vec!["10.1.2.3".to_string()]);
}

#[test]
fn cidr_masks_host_bits() {
    let ips = parse_cidr("192.168.1.77/30").unwrap();
    assert_eq!(ips, vec!["192.168.1.77".to_string(), "192.168.1.78".to_string()]);
}

#[test]
fn cidr_allows_leading_zero_octets() {
    let ips = parse_cidr("010.0.0.0/30").unwrap();
    assert_eq!(ips, vec!["10.0.0.1".to_string(), "10.0.0.2".to_string()]);
}

#[test]
fn cidr_rejects_bad_prefix() {
    let e = parse_cidr("10.0.0.0/33").unwrap_err();
    assert_eq!(e.kind, SetupErrorKind::InvalidCidr);
    assert_eq!(e.input, "10.0.0.0/33");
}

#[test]
fn cidr_rejects_bad_address() {
    let e = parse_cidr("example/24").unwrap_err();
    assert_eq!(e.kind, SetupErrorKind::InvalidCidr);
}

#[test]
fn cidr_rejects_missing_prefix() {
    let e = parse_cidr("10.0.0.0").unwrap_err();
    assert_eq!(e.kind, SetupErrorKind::InvalidCidr);
}

#[test]
fn cidr_ipv6_enumerates_whole_block() {
    let ips = parse_cidr("fd00::/126").unwrap();
    assert_eq!(
        ips,
        vec![
            "fd00::".to_string(),
            "fd00::1".to_string(),
            "fd00::2".to_string(),
            "fd00::3".to_string()
        ]
    );
}

#[test]
fn cidr_ipv6_block_beyond_the_machine_limit_is_refused() {
    let e = parse_cidr("fd00::/64").unwrap_err();
    assert_eq!(e.kind, SetupErrorKind::RangeTooLarge);
    let zero = parse_cidr("::/0").unwrap_err();
    assert_eq!(zero.kind, SetupErrorKind::RangeTooLarge);
}

#[test]
fn cidr_ipv6_wide_feasible_block_enumerates() {
    let ips = parse_cidr("fd00::/111").unwrap();
    assert_eq!(ips.len(), 131072);
    assert_eq!(ips[0], "fd00::");
    assert_eq!(ips[1], "fd00::1");
    assert_eq!(ips[131071], "fd00::1:ffff");
}

#[test]
fn cidr_lenient_grammar_admits_an_empty_double_colon() {
    let ips = parse_cidr("1:2:3:4:5:6:7::8/128").unwrap();
    assert_eq!(ips, vec!["1:2:3:4:5:6:7:8".to_string()]);
    let ips2 = parse_cidr("::1:2:3:4:5:6:7:8/128").unwrap();
    assert_eq!(ips2, vec!["1:2:3:4:5:6:7:8".to_string()]);
    let e = parse_cidr("1:2:3:4:5:6:7:8::/128").unwrap_err();
    assert_eq!(e.kind, SetupErrorKind::InvalidCidr);
}

#[test]
fn range_enumerates_inclusively_in_increasing_order() {
    let ips = parse_ip_range("10.0.0.1-10.0.0.3").unwrap();
    assert_eq!(
        ips,
        vec!["10.0.0.1".to_string(), "10.0.0.2".to_string(), "10.0.0.3".to_string()]
    );
}

#[test]
fn range_trims_whitespace_around_endpoints() {
    let ips = parse_ip_range(" 10.0.0.1 - 10.0.0.2 ").unwrap();
    assert_eq!(ips, vec!["10.0.0.1".to_string(), "10.0.0.2".to_string()]);
}

#[test]
fn range_inverted_fails() {
    let e = parse_ip_range("10.0.0.5-10.0.0.1").unwrap_err();
    assert_eq!(e.kind, SetupErrorKind::InvertedRange);
}

#[test]
fn range_mixed_families_fails() {
    let e = parse_ip_range("10.0.0.1-::1").unwrap_err();
    assert_eq!(e.kind, SetupErrorKind::MixedAddressFamily);
}

#[test]
fn range_ipv6_too_large_fails() {
    let e = parse_ip_range("::-::1:0:0").unwrap_err();
    assert_eq!(e.kind, SetupErrorKind::RangeTooLarge);
}

#[test]
fn range_ipv6_at_the_bound_enumerates() {
    let ips = parse_ip_range("::-::ffff").unwrap();
    assert_eq!(ips.len(), 65536);
    assert_eq!(ips[0], "::");
    assert_eq!(ips[1], "::1");
    assert_eq!(ips[65535], "::ffff");
}

#[test]
fn range_bad_endpoint_fails() {
    let e = parse_ip_range("10.0.0.1-banana").unwrap_err();
    assert_eq!(e.kind, SetupErrorKind::InvalidAddress);
    assert_eq!(e.input, "banana");
}

#[test]
fn range_needs_exactly_two_tokens() {
    let e = parse_ip_range("10.0.0.1").unwrap_err();
    assert_eq!(e.kind, SetupErrorKind::InvalidRange);
}

#[test]
fn range_ipv6_formats_canonically() {
    let ips = parse_ip_range("1:0:0:2::-1:0:0:2::").unwrap();
    assert_eq!(ips, vec!["1:0:0:2::".to_string()]);
}

#[test]
fn range_ipv4_mapped_addresses_format_in_dotted_form() {
    let ips = parse_ip_range("::ffff:1.2.3.4-::ffff:1.2.3.5").unwrap();
    assert_eq!(ips, vec!["::ffff:1.2.3.4".to_string(), "::ffff:1.2.3.5".to_string()]);
}

#[test]
fn range_accepts_non_canonical_ipv6_endpoints() {
    let ips = parse_ip_range("0:0:0:0:0:0:0:1-::2").unwrap();
    assert_eq!(ips, vec!["::1".to_string(), "::2".to_string()]);
}

#[test]
fn valid_ip_accepts_both_families() {
    assert!(is_valid_ip("127.0.0.1"));
    assert!(is_valid_ip("::1"));
    assert!(is_valid_ip("fe80::1"));
    assert!(is_valid_ip("255.255.255.255"));
}

#[test]
fn valid_ip_rejects_bad_text() {
    assert!(!is_valid_ip("1.2.3.4.5"));
    assert!(!is_valid_ip("256.1.1.1"));
    assert!(!is_valid_ip("01.2.3.4"));
    assert!(!is_valid_ip("gggg::"));
    assert!(!is_valid_ip("1:2:3:4:5:6:7:8:9"));
    assert!(!is_valid_ip(""));
    assert!(!is_valid_ip("example.com"));
}

#[test]
fn domain_lookup_must_yield_an_address() {
    let ok = domain_addresses("example.com", Some(vec!["93.184.216.34".to_string()]));
    assert_eq!(ok.unwrap(), vec!["93.184.216.34".to_string()]);

    let failed = domain_addresses("example.com", None).unwrap_err();
    assert_eq!(failed.kind, SetupErrorKind::DomainResolutionFailed);
    assert_eq!(failed.input, "example.com");

    let empty = domain_addresses("example.com", Some(vec![])).unwrap_err();
    assert_eq!(empty.kind, SetupErrorKind::DomainResolutionFailed);
}

#[test]
fn setup_error_message_names_the_input() {
    let e = parse_ip_range("10.0.0.5-10.0.0.1").unwrap_err();
    assert_eq!(
        e.message(),
        "Start IP must be less than or equal to end IP: 10.0.0.5-10.0.0.1"
    );
}

#[test]
fn valid_ip_ipv6_grammar_edges() {
    assert!(is_valid_ip("::"));
    assert!(is_valid_ip("1::"));
    assert!(is_valid_ip("::1:2:3:4:5:6:7"));
    assert!(is_valid_ip("1:2:3:4:5:6:7::"));
    assert!(is_valid_ip("1:2:3:4:5:6:7:8"));
    assert!(is_valid_ip("1:2:3:4:5:6:1.2.3.4"));
    assert!(is_valid_ip("::ffff:1.2.3.4"));
    assert!(is_valid_ip("00ab::"));

    assert!(!is_valid_ip(":"));
    assert!(!is_valid_ip(":::"));
    assert!(!is_valid_ip(":1"));
    assert!(!is_valid_ip("1:"));
    assert!(!is_valid_ip("1::2::3"));
    assert!(!is_valid_ip("1:2:3:4:5:6:7"));
    assert!(!is_valid_ip("1:2:3:4:5:6:7:8::"));
    assert!(!is_valid_ip("1:2:3:4:5:6:7::8"));
    assert!(!is_valid_ip("12345::"));
    assert!(!is_valid_ip("1.2.3.4::1"));
    assert!(!is_valid_ip("::1.2.3.4:5"));
}

#[test]
fn cidr_accepts_non_canonical_ipv6_text() {
    let ips = parse_cidr("fd00:0::/127").unwrap();
    assert_eq!(ips, vec!["fd00::".to_string(), "fd00::1".to_string()]);
}

#[test]
fn ipv6_compression_takes_the_longest_zero_run() {
    let ips = parse_ip_range("0:0:1::-0:0:1::").unwrap();
    assert_eq!(ips, vec!["0:0:1::".to_string()]);
}

#[test]
fn ipv6_compression_is_leftmost_on_a_tie() {
    let ips = parse_ip_range("1:0:0:1:0:0:1:1-1:0:0:1:0:0:1:1").unwrap();
    assert_eq!(ips, vec!["1::1:0:0:1:1".to_string()]);
}

#[test]
fn ipv6_single_zero_group_is_not_compressed() {
    let ips = parse_ip_range("1:0:2:3:4:5:6:7-1:0:2:3:4:5:6:7").unwrap();
    assert_eq!(ips, vec!["1:0:2:3:4:5:6:7".to_string()]);
}

#[test]
fn enumerations_never_repeat_an_address() {
    let mut v4 = parse_cidr("10.0.0.0/28").unwrap();
    assert_eq!(v4.len(), 14);
    v4.sort();
    for w in v4.windows(2) {
        assert_ne!(w[0], w[1]);
    }

    let mut v6 = parse_ip_range("::1-::20").unwrap();
    assert_eq!(v6.len(), 32);
    v6.sort();
    for w in v6.windows(2) {
        assert_ne!(w[0], w[1]);
    }
}
