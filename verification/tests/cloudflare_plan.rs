use dnssync::cloudflare::{
    find_zone_id, more_pages, plan_changes, response_outcome, ApiError, DNSRecord, WriteOp,
    WritePlan, Zone,
};
use dnssync::errors::Error;
use dnssync::records::Record;

fn authority_record(name: &str, content: &str) -> Record {
    Record {
        name: name.to_string(),
        kind: "A".to_string(),
        content: content.to_string(),
        source: "Test".to_string(),
    }
}

fn instance_record(name: &str, content: &str, id: &str, instance: &str) -> DNSRecord {
    DNSRecord {
        kind: "A".to_string(),
        name: name.to_string(),
        content: content.to_string(),
        comment: Some(format!("Managed by DNSSync instance:{}", instance)),
        ttl: 1,
        id: id.to_string(),
    }
}

#[test]
fn instance_id_roundtrip() {
    let mut r = instance_record("host.example.com", "1.1.1.1", "42", "alpha");
    assert_eq!(r.get_instance_id(), Some("alpha".to_string()));
    r.set_instance_id("beta");
    assert_eq!(r.get_instance_id(), Some("beta".to_string()));
    assert_eq!(r.comment.as_deref(), Some("Managed by DNSSync instance:beta"));
}

#[test]
fn instance_id_absent_without_marker() {
    let r = DNSRecord {
        kind: "A".to_string(),
        name: "host.example.com".to_string(),
        content: "1.1.1.1".to_string(),
        comment: Some("Managed by DNSSync".to_string()),
        ttl: 1,
        id: "1".to_string(),
    };
    assert_eq!(r.get_instance_id(), None);
}

#[test]
fn instance_id_is_trimmed() {
    let r = DNSRecord {
        kind: "A".to_string(),
        name: "host.example.com".to_string(),
        content: "1.1.1.1".to_string(),
        comment: Some("Managed by DNSSync instance: gamma  ".to_string()),
        ttl: 1,
        id: "1".to_string(),
    };
    assert_eq!(r.get_instance_id(), Some("gamma".to_string()));
}

#[test]
fn plan_reports_no_changes_when_in_sync() {
    let current = vec![instance_record("host.example.com", "1.1.1.1", "1", "alpha")];
    let authority = vec![authority_record("host.example.com", "1.1.1.1")];
    let plan = plan_changes(current, authority, "alpha", false);
    assert!(matches!(plan, WritePlan::NoChanges));
}

#[test]
fn dry_run_plans_no_write_and_reports_live_counts() {
    let current = vec![
        instance_record("change.example.com", "1.1.1.1", "1", "alpha"),
        instance_record("stale.example.com", "2.2.2.2", "2", "alpha"),
        instance_record("foreign.example.com", "3.3.3.3", "3", "other"),
    ];
    let authority = vec![
        authority_record("change.example.com", "9.9.9.9"),
        authority_record("new.example.com", "8.8.8.8"),
    ];
    let plan = plan_changes(current.clone(), authority.clone(), "alpha", true);
    match plan {
        WritePlan::DryRun(c) => {
            assert_eq!(c.create, 1);
            assert_eq!(c.update, 1);
            // stale is scoped to this instance and deleted; foreign is not
            assert_eq!(c.delete, 1);
        },
        _ => panic!("expected a dry-run plan"),
    }
    // The live plan issues exactly as many writes as the dry run counted.
    let live = plan_changes(current, authority, "alpha", false);
    match live {
        WritePlan::Apply(ops) => assert_eq!(ops.len(), 3),
        _ => panic!("expected a live plan"),
    }
}

#[test]
fn live_plan_orders_deletes_before_updates_before_creates() {
    let current = vec![
        instance_record("change.example.com", "1.1.1.1", "id-up", "alpha"),
        instance_record("stale.example.com", "2.2.2.2", "id-del", "alpha"),
    ];
    let authority = vec![
        authority_record("change.example.com", "9.9.9.9"),
        authority_record("new.example.com", "8.8.8.8"),
    ];
    let plan = plan_changes(current, authority, "alpha", false);
    let ops = match plan {
        WritePlan::Apply(ops) => ops,
        _ => panic!("expected a live plan"),
    };
    assert_eq!(ops.len(), 3);
    match &ops[0] {
        WriteOp::Delete(r) => assert_eq!(r.id, "id-del"),
        _ => panic!("first operation must be the delete"),
    }
    match &ops[1] {
        WriteOp::Update(r) => {
            assert_eq!(r.id, "id-up");
            assert_eq!(r.content, "9.9.9.9");
            // updates are re-stamped with this instance before writing
            assert_eq!(r.comment.as_deref(), Some("Managed by DNSSync instance:alpha"));
        },
        _ => panic!("second operation must be the update"),
    }
    match &ops[2] {
        WriteOp::Create(r) => {
            assert_eq!(r.name, "new.example.com");
            assert_eq!(r.content, "8.8.8.8");
            assert_eq!(r.comment.as_deref(), Some("Managed by DNSSync instance:alpha"));
        },
        _ => panic!("third operation must be the create"),
    }
}

#[test]
fn deletions_scoped_to_other_instances_are_kept() {
    let current = vec![instance_record("stale.example.com", "2.2.2.2", "2", "other")];
    let authority: Vec<Record> = Vec::new();
    let plan = plan_changes(current, authority, "alpha", false);
    assert!(matches!(plan, WritePlan::NoChanges));
}

#[test]
fn response_outcome_accepts_clean_success() {
    assert!(response_outcome(true, Vec::new()).is_ok());
}

#[test]
fn response_outcome_rejects_failure_with_message() {
    let errors = vec![ApiError { code: "81057".to_string(), message: "Record already exists".to_string() }];
    match response_outcome(false, errors) {
        Err(Error::Response { message }) => {
            assert_eq!(message, "Request unsuccessful: 81057 Record already exists; ");
        },
        _ => panic!("expected a response error"),
    }
}

#[test]
fn response_outcome_rejects_success_with_errors() {
    let errors = vec![ApiError { code: "1".to_string(), message: "partial".to_string() }];
    assert!(response_outcome(true, errors).is_err());
}

#[test]
fn pagination_continues_while_count_exceeds_pages() {
    assert!(more_pages(120, 1, 50));
    assert!(more_pages(120, 2, 50));
    assert!(!more_pages(120, 3, 50));
    assert!(!more_pages(0, 1, 50));
}

#[test]
fn zone_lookup_finds_first_matching_name() {
    let zones = vec![
        Zone { name: "other.org".to_string(), id: "z1".to_string() },
        Zone { name: "example.com".to_string(), id: "z2".to_string() },
        Zone { name: "example.com".to_string(), id: "z3".to_string() },
    ];
    assert_eq!(find_zone_id(&zones, "example.com"), Some("z2".to_string()));
    assert_eq!(find_zone_id(&zones, "missing.net"), None);
}
