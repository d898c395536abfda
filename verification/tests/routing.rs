use dnssync::records::Record;
use dnssync::router::route_records;
use dnssync::service::find_duplicate_slots;

fn record(name: &str, kind: &str, source: &str) -> Record {
    Record {
        name: name.to_string(),
        kind: kind.to_string(),
        content: "1.1.1.1".to_string(),
        source: source.to_string(),
    }
}

#[test]
fn record_routes_to_longest_matching_suffix() {
    // The orchestrator orders frontends longest domain first; the first
    // suffix match is then the most specific one.
    let domains = vec!["svc.example.com".to_string(), "example.com".to_string()];
    let records = vec![record("host.svc.example.com", "A", "Test")];
    let (buckets, dropped) = route_records(records, &domains);
    assert_eq!(buckets.len(), 2);
    assert_eq!(buckets[0].len(), 1);
    assert_eq!(buckets[0][0].name, "host.svc.example.com");
    assert_eq!(buckets[1].len(), 0);
    assert_eq!(dropped.len(), 0);
}

#[test]
fn record_outside_every_domain_is_dropped() {
    let domains = vec!["example.com".to_string()];
    let records = vec![record("host.example.org", "A", "Test")];
    let (buckets, dropped) = route_records(records, &domains);
    assert_eq!(buckets[0].len(), 0);
    assert_eq!(dropped.len(), 1);
    assert_eq!(dropped[0].name, "host.example.org");
}

#[test]
fn records_partition_among_frontends() {
    let domains = vec!["svc.example.com".to_string(), "example.com".to_string()];
    let records = vec![
        record("a.svc.example.com", "A", "Test"),
        record("b.example.com", "A", "Test"),
        record("c.example.org", "A", "Test"),
    ];
    let (buckets, dropped) = route_records(records, &domains);
    assert_eq!(buckets[0].len(), 1);
    assert_eq!(buckets[1].len(), 1);
    assert_eq!(dropped.len(), 1);
    assert_eq!(buckets[0][0].name, "a.svc.example.com");
    assert_eq!(buckets[1][0].name, "b.example.com");
}

#[test]
fn duplicate_slots_from_distinct_backends_are_reported() {
    let records = vec![
        record("host.example.com", "A", "headscale"),
        record("other.example.com", "A", "jsonfile"),
        record("HOST.example.com", "a", "jsonfile"),
    ];
    let dups = find_duplicate_slots(&records);
    assert_eq!(dups, vec![(0, 2)]);
}

#[test]
fn duplicate_slots_within_one_backend_are_not_reported() {
    let records = vec![
        record("host.example.com", "A", "headscale"),
        record("host.example.com", "A", "headscale"),
    ];
    let dups = find_duplicate_slots(&records);
    assert_eq!(dups.len(), 0);
}

#[test]
fn different_kinds_are_different_slots() {
    let records = vec![
        record("host.example.com", "A", "headscale"),
        record("host.example.com", "AAAA", "jsonfile"),
    ];
    let dups = find_duplicate_slots(&records);
    assert_eq!(dups.len(), 0);
}
