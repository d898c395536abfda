use dnssync::cloudflare::DNSRecord;
use dnssync::comparison::{diff_records, DiffResult};
use dnssync::records::Record;

fn authority_record(name: &str, content: &str) -> Record {
    Record {
        name: name.to_string(),
        kind: "A".to_string(),
        content: content.to_string(),
        source: "Test".to_string(),
    }
}

fn managed_record(name: &str, content: &str, id: &str) -> DNSRecord {
    DNSRecord {
        kind: "A".to_string(),
        name: name.to_string(),
        content: content.to_string(),
        comment: Some("Managed by DNSSync".to_string()),
        ttl: 1,
        id: id.to_string(),
    }
}

fn unmanaged_record(name: &str, content: &str) -> DNSRecord {
    DNSRecord {
        kind: "A".to_string(),
        name: name.to_string(),
        content: content.to_string(),
        comment: None,
        ttl: 300,
        id: "unmanaged-id".to_string(),
    }
}

#[test]
fn noop_when_record_already_matches() {
    let current = vec![managed_record("host.example.com", "1.1.1.1", "7")];
    let authority = vec![authority_record("host.example.com", "1.1.1.1")];
    let diff = diff_records(current, authority);
    assert_eq!(diff.len(), 0);
}

#[test]
fn create_when_slot_is_absent() {
    let current: Vec<DNSRecord> = Vec::new();
    let authority = vec![authority_record("host.example.com", "2.2.2.2")];
    let diff = diff_records(current, authority);
    assert_eq!(diff.create.len(), 1);
    assert_eq!(diff.update.len(), 0);
    assert_eq!(diff.delete.len(), 0);
    assert_eq!(diff.create[0].content, "2.2.2.2");
    assert_eq!(diff.create[0].kind, "A");
    assert_eq!(diff.create[0].name, "host.example.com");
    assert_eq!(diff.create[0].comment.as_deref(), Some("Managed by DNSSync"));
}

#[test]
fn update_preserves_identity_and_replaces_content() {
    let current = vec![managed_record("host.example.com", "1.1.1.1", "42")];
    let authority = vec![authority_record("host.example.com", "9.9.9.9")];
    let diff = diff_records(current, authority);
    assert_eq!(diff.create.len(), 0);
    assert_eq!(diff.update.len(), 1);
    assert_eq!(diff.delete.len(), 0);
    assert_eq!(diff.update[0].id, "42");
    assert_eq!(diff.update[0].content, "9.9.9.9");
    assert_eq!(diff.update[0].name, "host.example.com");
}

#[test]
fn delete_managed_record_absent_from_authority() {
    let current = vec![managed_record("host.example.com", "1.1.1.1", "42")];
    let authority: Vec<Record> = Vec::new();
    let diff = diff_records(current, authority);
    assert_eq!(diff.create.len(), 0);
    assert_eq!(diff.update.len(), 0);
    assert_eq!(diff.delete.len(), 1);
    assert_eq!(diff.delete[0].name, "host.example.com");
    assert_eq!(diff.delete[0].content, "1.1.1.1");
}

#[test]
fn unmanaged_record_is_never_touched() {
    let current = vec![unmanaged_record("host.example.com", "1.1.1.1")];
    let authority = vec![authority_record("host.example.com", "9.9.9.9")];
    let diff = diff_records(current, authority);
    assert_eq!(diff.update.len(), 0);
    assert_eq!(diff.create.len(), 0);
    assert_eq!(diff.delete.len(), 0);
}

#[test]
fn unmanaged_record_is_never_deleted() {
    let current = vec![unmanaged_record("stale.example.com", "1.1.1.1")];
    let authority: Vec<Record> = Vec::new();
    let diff = diff_records(current, authority);
    assert_eq!(diff.delete.len(), 0);
}

#[test]
fn slot_matching_ignores_ascii_case() {
    let current = vec![managed_record("Host.Example.Com", "1.1.1.1", "9")];
    let mut authority = vec![authority_record("host.example.com", "1.1.1.1")];
    authority[0].kind = "a".to_string();
    let diff = diff_records(current, authority);
    assert_eq!(diff.create.len(), 0);
    assert_eq!(diff.update.len(), 0);
    assert_eq!(diff.delete.len(), 0);
}

#[test]
fn applying_the_diff_then_diffing_again_is_empty() {
    let current = vec![
        managed_record("keep.example.com", "1.1.1.1", "1"),
        managed_record("change.example.com", "2.2.2.2", "2"),
        managed_record("stale.example.com", "3.3.3.3", "3"),
        unmanaged_record("foreign.example.com", "4.4.4.4"),
    ];
    let authority = vec![
        authority_record("keep.example.com", "1.1.1.1"),
        authority_record("change.example.com", "8.8.8.8"),
        authority_record("new.example.com", "9.9.9.9"),
        authority_record("foreign.example.com", "7.7.7.7"),
    ];
    let diff = diff_records(current.clone(), authority.clone());
    assert_eq!(diff.create.len(), 1);
    assert_eq!(diff.update.len(), 1);
    assert_eq!(diff.delete.len(), 1);

    // Apply the change set by hand: drop deletions, substitute updates,
    // append creations.
    let DiffResult { create, update, delete } = diff;
    let mut applied: Vec<DNSRecord> = Vec::new();
    for r in current {
        if delete.iter().any(|d| d.id == r.id) {
            continue;
        }
        if let Some(u) = update.iter().find(|u| u.id == r.id) {
            applied.push(u.clone());
        } else {
            applied.push(r);
        }
    }
    applied.extend(create);

    let second = diff_records(applied, authority);
    assert_eq!(second.len(), 0);
}

#[test]
fn diff_result_len_sums_the_three_lists() {
    let d: DiffResult<DNSRecord> = DiffResult {
        create: vec![managed_record("a.example.com", "1.1.1.1", "1")],
        update: vec![
            managed_record("b.example.com", "2.2.2.2", "2"),
            managed_record("c.example.com", "3.3.3.3", "3"),
        ],
        delete: Vec::new(),
    };
    assert_eq!(d.len(), 3);
}
