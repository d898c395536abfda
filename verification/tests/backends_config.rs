use dnssync::backends::{
    convert_cidrs, headscale_machine_records, jsonfile_record, machinectl_machine_records,
};
use dnssync::config::{classify_backend, classify_frontend, key_source, BackendKind, FrontendKind,
    KeySource};
use dnssync::errors::Error;
use dnssync::net::CidrBlock;

#[test]
fn headscale_machine_yields_one_record_per_address() {
    let ips = vec!["100.64.0.7".to_string(), "fd7a:115c::7".to_string()];
    let records = headscale_machine_records("node", "alice", &ips, "ts.example.com", false)
        .expect("valid addresses");
    assert_eq!(records.len(), 2);
    assert_eq!(records[0].name, "node.ts.example.com");
    assert_eq!(records[0].kind, "A");
    assert_eq!(records[0].content, "100.64.0.7");
    assert_eq!(records[0].source, "Headscale");
    assert_eq!(records[1].kind, "AAAA");
    assert_eq!(records[1].content, "fd7a:115c::7");
}

#[test]
fn headscale_user_suffix_goes_between_machine_and_domain() {
    let ips = vec!["100.64.0.7".to_string()];
    let records = headscale_machine_records("node", "alice", &ips, "ts.example.com", true)
        .expect("valid addresses");
    assert_eq!(records[0].name, "node.alice.ts.example.com");
}

#[test]
fn headscale_invalid_address_fails_the_read() {
    let ips = vec!["100.64.0.7".to_string(), "banana".to_string()];
    match headscale_machine_records("node", "alice", &ips, "ts.example.com", false) {
        Err(Error::Backend { backend, message }) => {
            assert_eq!(backend, "Headscale");
            assert_eq!(message, "Failed to parse ip banana");
        },
        _ => panic!("expected a backend error"),
    }
}

#[test]
fn machinectl_filters_by_included_and_excluded_blocks() {
    let included = convert_cidrs("10.0.0.0/8").expect("valid cidr");
    let excluded = convert_cidrs("10.9.0.0/16").expect("valid cidr");
    let addresses = "10.1.2.3\n10.9.1.1\n192.168.1.4\nfd00::1";
    let records =
        machinectl_machine_records("vm", addresses, "machines.example.com", &included, &excluded)
            .expect("valid addresses");
    assert_eq!(records.len(), 1);
    assert_eq!(records[0].name, "vm.machines.example.com");
    assert_eq!(records[0].content, "10.1.2.3");
    assert_eq!(records[0].kind, "A");
    assert_eq!(records[0].source, "Machinectl");
}

#[test]
fn machinectl_without_filters_keeps_every_address() {
    let none: Vec<CidrBlock> = Vec::new();
    let records = machinectl_machine_records(
        "vm",
        "192.168.1.4\nfd00::1",
        "machines.example.com",
        &none,
        &none,
    )
        .expect("valid addresses");
    assert_eq!(records.len(), 2);
    assert_eq!(records[0].kind, "A");
    assert_eq!(records[1].kind, "AAAA");
}

#[test]
fn machinectl_invalid_address_fails_the_read() {
    let none: Vec<CidrBlock> = Vec::new();
    match machinectl_machine_records("vm", "not-an-ip", "machines.example.com", &none, &none) {
        Err(Error::Backend { backend, message }) => {
            assert_eq!(backend, "Machinectl");
            assert_eq!(message, "Failed to parse ip not-an-ip");
        },
        _ => panic!("expected a backend error"),
    }
}

#[test]
fn cidr_list_allows_blanks_and_whitespace() {
    let blocks = convert_cidrs(" 10.0.0.0/8 , , fd00::/8 ").expect("valid list");
    assert_eq!(blocks.len(), 2);
    assert!(!blocks[0].v6);
    assert_eq!(blocks[0].len, 8);
    assert!(blocks[1].v6);
}

#[test]
fn cidr_list_rejects_malformed_entries() {
    match convert_cidrs("10.0.0.0/8, 10.0.0.1/8") {
        Err(Error::Config { message, prefix }) => {
            // the cidr parser requires host bits to be zero
            assert_eq!(prefix, "machinectl");
            assert_eq!(message, "Invalid CIDR 10.0.0.1/8");
        },
        _ => panic!("expected a configuration error"),
    }
}

#[test]
fn empty_cidr_option_yields_no_blocks() {
    let blocks = convert_cidrs("").expect("empty list is fine");
    assert_eq!(blocks.len(), 0);
}

#[test]
fn jsonfile_record_normalizes_name_and_kind() {
    let record = jsonfile_record("HOST.Example.COM", "a", "1.2.3.4").expect("valid host");
    assert_eq!(record.name, "host.example.com");
    assert_eq!(record.kind, "A");
    assert_eq!(record.content, "1.2.3.4");
    assert_eq!(record.source, "JSONFile");
}

#[test]
fn jsonfile_record_rejects_invalid_host() {
    match jsonfile_record("exa mple.com", "A", "1.2.3.4") {
        Err(Error::Backend { backend, message }) => {
            assert_eq!(backend, "JSONFile");
            assert_eq!(message, "Failed to parse record name exa mple.com");
        },
        _ => panic!("expected a backend error"),
    }
}

#[test]
fn key_value_starting_with_at_names_a_file() {
    match key_source("@/etc/dnssync/token".to_string()) {
        KeySource::File(path) => assert_eq!(path, "/etc/dnssync/token"),
        _ => panic!("expected a file source"),
    }
    match key_source("SECRET-REDACTED".to_string()) {
        KeySource::Literal(value) => assert_eq!(value, "SECRET-REDACTED"),
        _ => panic!("expected a literal source"),
    }
}

#[test]
fn backend_names_are_recognized_case_insensitively() {
    assert!(matches!(classify_backend("HeadScale"), Ok(BackendKind::Headscale)));
    assert!(matches!(classify_backend("jsonfile"), Ok(BackendKind::Jsonfile)));
    assert!(matches!(classify_backend("MACHINECTL"), Ok(BackendKind::Machinectl)));
    match classify_backend("route53") {
        Err(Error::Config { message, prefix }) => {
            assert_eq!(prefix, "backends");
            assert_eq!(message, "Unrecognized backend route53");
        },
        _ => panic!("expected a configuration error"),
    }
}

#[test]
fn frontend_names_are_recognized_case_insensitively() {
    assert!(matches!(classify_frontend("Cloudflare"), Ok(FrontendKind::Cloudflare)));
    match classify_frontend("bind") {
        Err(Error::Config { message, prefix }) => {
            assert_eq!(prefix, "frontends");
            assert_eq!(message, "Unrecognized frontend bind");
        },
        _ => panic!("expected a configuration error"),
    }
}
