use hbb_common::addr::{check_port, increase_port, ipv4_to_ipv6, is_ipv4_str, is_ipv6_str};

#[test]
fn check_port_appends_port() {
    assert_eq!(check_port("10.0.0.1", 21116), "10.0.0.1:21116");
    assert_eq!(check_port("example.com", 80), "example.com:80");
}

#[test]
fn check_port_keeps_existing_port() {
    assert_eq!(check_port("10.0.0.1:8000", 21116), "10.0.0.1:8000");
    assert_eq!(check_port("example.com:80", 0), "example.com:80");
}

#[test]
fn check_port_brackets_bare_ipv6() {
    assert_eq!(check_port("::1", 8000), "[::1]:8000");
    assert_eq!(check_port("fe80::2021", 21116), "[fe80::2021]:21116");
}

#[test]
fn check_port_keeps_bracketed_ipv6() {
    assert_eq!(check_port("[::1]:8000", 9), "[::1]:8000");
    assert_eq!(check_port("[fe80::2021]", 9), "[fe80::2021]");
}

#[test]
fn increase_port_shifts_ipv4_port() {
    assert_eq!(increase_port("10.0.0.1:8000", 1), "10.0.0.1:8001");
    assert_eq!(increase_port("10.0.0.1:8000", -1), "10.0.0.1:7999");
    assert_eq!(increase_port("example.com:21116", 3), "example.com:21119");
}

#[test]
fn increase_port_without_port_is_a_no_op() {
    assert_eq!(increase_port("example.com", 5), "example.com");
    assert_eq!(increase_port("10.0.0.1", 5), "10.0.0.1");
    assert_eq!(increase_port("::1", 5), "::1");
}

#[test]
fn increase_port_shifts_bracketed_ipv6_port() {
    assert_eq!(increase_port("[::1]:8000", 1), "[::1]:8001");
    assert_eq!(increase_port("[fe80::2021]:21116", 2), "[fe80::2021]:21118");
}

#[test]
fn increase_port_ignores_unparseable_ports() {
    assert_eq!(increase_port("example.com:abc", 1), "example.com:abc");
    assert_eq!(increase_port("example.com:0", 1), "example.com:0");
    assert_eq!(increase_port("a:1:2", 1), "a:1:2");
    assert_eq!(
        increase_port("example.com:99999999999", 1),
        "example.com:99999999999"
    );
}

#[test]
fn ipv4_literal_classification() {
    assert!(is_ipv4_str("1.2.3.4"));
    assert!(is_ipv4_str("10.0.0.1:8000"));
    assert!(!is_ipv4_str("1.2.3"));
    assert!(!is_ipv4_str("1.2.3.4.5"));
    assert!(!is_ipv4_str("a.b.c.d"));
    assert!(!is_ipv4_str("1.2.3.4:"));
    assert!(!is_ipv4_str("example.com"));
    assert!(!is_ipv4_str(""));
}

#[test]
fn ipv6_literal_classification() {
    assert!(is_ipv6_str("::1"));
    assert!(is_ipv6_str("fe80::2021"));
    assert!(is_ipv6_str("[::1]:8000"));
    assert!(is_ipv6_str("[fe80::2021]"));
    assert!(!is_ipv6_str("example.com"));
    assert!(!is_ipv6_str("1.2.3.4"));
    assert!(!is_ipv6_str("10.0.0.1:8000"));
    assert!(!is_ipv6_str("[::1]:"));
    assert!(!is_ipv6_str(""));
}

#[test]
fn ipv4_to_ipv6_inserts_nat64_suffix() {
    assert_eq!(
        ipv4_to_ipv6("10.0.0.1:8000".to_owned(), false),
        "10.0.0.1.nip.io:8000"
    );
    assert_eq!(ipv4_to_ipv6("10.0.0.1".to_owned(), false), "10.0.0.1.nip.io");
}

#[test]
fn ipv4_to_ipv6_no_op_cases() {
    assert_eq!(ipv4_to_ipv6("10.0.0.1:8000".to_owned(), true), "10.0.0.1:8000");
    assert_eq!(ipv4_to_ipv6("example.com:80".to_owned(), false), "example.com:80");
    assert_eq!(ipv4_to_ipv6("[::1]:80".to_owned(), false), "[::1]:80");
}
