use slipstream::config::{
    cannot_resolve_error, first_of_family, lookup_target, no_address_error, AddressFamily,
    AddressKind, HostPort,
};
use slipstream::{normalize_domain, parse_host_port, parse_resolver_addresses};

fn err_msg<T: std::fmt::Debug>(r: Result<T, slipstream::ConfigError>) -> String {
    r.expect_err("expected an error").message()
}

#[test]
fn normalize_trims_whitespace_and_one_dot() {
    assert_eq!(normalize_domain("  Example.COM.  ").unwrap(), "Example.COM");
}

#[test]
fn normalize_keeps_plain_domain() {
    assert_eq!(normalize_domain("test.com").unwrap(), "test.com");
}

#[test]
fn normalize_removes_only_one_trailing_dot() {
    assert_eq!(normalize_domain("a..").unwrap(), "a.");
}

#[test]
fn normalize_rejects_empty() {
    assert_eq!(err_msg(normalize_domain("")), "Domain must not be empty");
    assert_eq!(err_msg(normalize_domain(" \t\n ")), "Domain must not be empty");
    assert_eq!(err_msg(normalize_domain(" . ")), "Domain must not be empty");
}

#[test]
fn normalize_trims_unicode_whitespace() {
    assert_eq!(normalize_domain("\u{3000}x.org\u{a0}").unwrap(), "x.org");
}

#[test]
fn normalize_is_idempotent_on_examples() {
    for s in ["  Example.COM.  ", "x", " a.b.c. ", "\tq.r"] {
        let once = normalize_domain(s).unwrap();
        let twice = normalize_domain(&once).unwrap();
        assert_eq!(once, twice);
    }
}

#[test]
fn bracketed_ipv6_with_port() {
    let hp = parse_host_port("[::1]:5353", 53, AddressKind::Resolver).unwrap();
    assert_eq!(hp.host, "::1");
    assert_eq!(hp.port, 5353);
    assert_eq!(hp.family, AddressFamily::V6);
}

#[test]
fn bracketed_ipv6_without_port() {
    let hp = parse_host_port("[2001:db8::2]", 53, AddressKind::Resolver).unwrap();
    assert_eq!(hp.host, "2001:db8::2");
    assert_eq!(hp.port, 53);
    assert_eq!(hp.family, AddressFamily::V6);
}

#[test]
fn ipv4_with_default_port() {
    let hp = parse_host_port("1.2.3.4", 53, AddressKind::Resolver).unwrap();
    assert_eq!(hp.host, "1.2.3.4");
    assert_eq!(hp.port, 53);
    assert_eq!(hp.family, AddressFamily::V4);
}

#[test]
fn host_with_port() {
    let hp = parse_host_port("example.net:8053", 53, AddressKind::Target).unwrap();
    assert_eq!(hp.host, "example.net");
    assert_eq!(hp.port, 8053);
    assert_eq!(hp.family, AddressFamily::V4);
}

#[test]
fn port_zero_is_rejected() {
    assert_eq!(
        err_msg(parse_host_port("1.2.3.4:0", 53, AddressKind::Resolver)),
        "Invalid port number in resolver address: 1.2.3.4:0"
    );
}

#[test]
fn port_too_large_is_rejected() {
    assert_eq!(
        err_msg(parse_host_port("1.2.3.4:65536", 53, AddressKind::Target)),
        "Invalid port number in target address: 1.2.3.4:65536"
    );
    assert_eq!(
        err_msg(parse_host_port("[::1]:99999999999", 53, AddressKind::Resolver)),
        "Invalid port number in resolver address: [::1]:99999999999"
    );
}

#[test]
fn largest_port_is_accepted() {
    assert_eq!(parse_host_port("h:65535", 53, AddressKind::Target).unwrap().port, 65535);
}

#[test]
fn ipv6_without_brackets_is_rejected() {
    assert_eq!(
        err_msg(parse_host_port("::1", 53, AddressKind::Resolver)),
        "Invalid port number in resolver address: ::1"
    );
}

#[test]
fn missing_closing_bracket() {
    assert_eq!(
        err_msg(parse_host_port("[::1", 53, AddressKind::Resolver)),
        "Invalid IPv6 address format (missing closing bracket): [::1"
    );
    assert_eq!(
        err_msg(parse_host_port("[::1]x", 53, AddressKind::Resolver)),
        "Invalid IPv6 address format (missing closing bracket): [::1]x"
    );
}

#[test]
fn empty_brackets() {
    assert_eq!(
        err_msg(parse_host_port("[]:53", 53, AddressKind::Target)),
        "Invalid IPv6 address in target: []:53"
    );
}

#[test]
fn empty_port_and_empty_host() {
    assert_eq!(
        err_msg(parse_host_port("host:", 53, AddressKind::Resolver)),
        "Invalid port number in resolver address: host:"
    );
    assert_eq!(
        err_msg(parse_host_port(":53", 53, AddressKind::Resolver)),
        "Invalid resolver address: :53"
    );
    assert_eq!(err_msg(parse_host_port("", 53, AddressKind::Target)), "Invalid target address: ");
}

#[test]
fn bracketed_port_must_be_digits() {
    assert_eq!(
        err_msg(parse_host_port("[::1]:+53", 53, AddressKind::Resolver)),
        "Invalid port number in resolver address: [::1]:+53"
    );
}

#[test]
fn resolver_families_cannot_mix() {
    let addrs = vec!["1.1.1.1".to_string(), "[::1]:53".to_string()];
    assert_eq!(err_msg(parse_resolver_addresses(&addrs)), "Cannot mix IPv4 and IPv6 resolver addresses");
}

#[test]
fn resolver_list_parses_in_order() {
    let addrs = vec!["1.1.1.1".to_string(), "8.8.8.8:5353".to_string()];
    let set = parse_resolver_addresses(&addrs).unwrap();
    assert_eq!(set.len(), 2);
    assert_eq!(set[0].host, "1.1.1.1");
    assert_eq!(set[0].port, 53);
    assert_eq!(set[1].host, "8.8.8.8");
    assert_eq!(set[1].port, 5353);
    assert!(set.iter().all(|h| h.family == AddressFamily::V4));
}

#[test]
fn resolver_list_reports_first_bad_entry() {
    let addrs = vec!["[::1]".to_string(), "[::2]:0".to_string(), "1.1.1.1".to_string()];
    assert_eq!(
        err_msg(parse_resolver_addresses(&addrs)),
        "Invalid port number in resolver address: [::2]:0"
    );
}

#[test]
fn address_kind_labels() {
    assert_eq!(AddressKind::Resolver.label(), "resolver");
    assert_eq!(AddressKind::Target.label(), "target");
}

#[test]
fn first_address_of_family() {
    let fams = [AddressFamily::V6, AddressFamily::V4, AddressFamily::V4];
    assert_eq!(first_of_family(&fams, AddressFamily::V4), Some(1));
    assert_eq!(first_of_family(&fams, AddressFamily::V6), Some(0));
    assert_eq!(first_of_family(&fams[1..], AddressFamily::V6), None);
}

#[test]
fn resolution_error_messages() {
    assert_eq!(cannot_resolve_error("nowhere").message(), "Cannot resolve nowhere");
    assert_eq!(no_address_error(AddressFamily::V6, "h").message(), "No IPv6 address found for h");
    assert_eq!(no_address_error(AddressFamily::V4, "h").message(), "No IPv4 address found for h");
}

#[test]
fn empty_resolver_list_is_rejected() {
    let addrs: Vec<String> = Vec::new();
    assert_eq!(err_msg(parse_resolver_addresses(&addrs)), "At least one resolver address is required");
}

#[test]
fn lookup_target_text() {
    let v4 = HostPort { host: "example.net".to_string(), port: 5201, family: AddressFamily::V4 };
    assert_eq!(lookup_target(&v4), "example.net:5201");
    let v6 = HostPort { host: "::1".to_string(), port: 53, family: AddressFamily::V6 };
    assert_eq!(lookup_target(&v6), "[::1]:53");
    let low = HostPort { host: "h".to_string(), port: 7, family: AddressFamily::V4 };
    assert_eq!(lookup_target(&low), "h:7");
    let high = HostPort { host: "h".to_string(), port: 65535, family: AddressFamily::V4 };
    assert_eq!(lookup_target(&high), "h:65535");
}
