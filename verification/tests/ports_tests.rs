use ruscan::errors::SetupErrorKind;
use ruscan::ports::{build_ports, default_ports, parse_port_list, parse_port_range};

#[test]
fn list_drops_malformed_tokens_silently() {
    assert_eq!(parse_port_list("80,abc,443"), vec![80, 443]);
}

#[test]
fn list_trims_whitespace() {
    assert_eq!(parse_port_list(" 21 , 22 ,\t23 "), vec![21, 22, 23]);
}

#[test]
fn list_accepts_plus_and_leading_zeros() {
    assert_eq!(parse_port_list("+80,0443"), vec![80, 443]);
}

#[test]
fn list_drops_oversized_numbers() {
    assert_eq!(parse_port_list("65535,65536,70000,1"), vec![65535, 1]);
}

#[test]
fn port_range_is_inclusive() {
    assert_eq!(parse_port_range("20-22").unwrap(), vec![20, 21, 22]);
}

#[test]
fn port_range_inverted_is_empty() {
    assert_eq!(parse_port_range("22-20").unwrap(), Vec::<u16>::new());
}

#[test]
fn port_range_malformed_is_fatal() {
    let e = parse_port_range("a-b").unwrap_err();
    assert_eq!(e.kind, SetupErrorKind::InvalidRange);
    assert_eq!(e.input, "a-b");
    assert_eq!(parse_port_range("1-2-3").unwrap_err().kind, SetupErrorKind::InvalidRange);
    assert_eq!(parse_port_range("80").unwrap_err().kind, SetupErrorKind::InvalidRange);
    assert_eq!(parse_port_range("1-70000").unwrap_err().kind, SetupErrorKind::InvalidRange);
}

#[test]
fn build_unions_sources_in_order_without_repetition() {
    let (ports, used_default) =
        build_ports(Some(80), Some("443-445"), Some("80,445,8080")).unwrap();
    assert_eq!(ports, vec![80, 443, 444, 445, 8080]);
    assert!(!used_default);
}

#[test]
fn build_substitutes_default_when_no_source_given() {
    let (ports, used_default) = build_ports(None, None, None).unwrap();
    assert_eq!(
        ports,
        vec![21, 22, 23, 25, 53, 80, 110, 143, 443, 993, 995, 3306, 3389, 5432, 8080]
    );
    assert!(used_default);
    assert_eq!(ports, default_ports());
}

#[test]
fn build_substitutes_default_when_sources_yield_nothing() {
    let (ports, used_default) = build_ports(None, None, Some("abc,,")).unwrap();
    assert_eq!(ports, default_ports());
    assert!(used_default);

    let (ports2, used_default2) = build_ports(None, Some("9-5"), None).unwrap();
    assert_eq!(ports2, default_ports());
    assert!(used_default2);
}

#[test]
fn build_propagates_range_errors() {
    let e = build_ports(Some(80), Some("x-y"), Some("443")).unwrap_err();
    assert_eq!(e.kind, SetupErrorKind::InvalidRange);
}
