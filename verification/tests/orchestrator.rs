use dnssync::errors::Error;
use dnssync::records::Record;
use dnssync::service::{Backend, DNSSync, Frontend};

fn record(name: &str, source: &str) -> Record {
    Record {
        name: name.to_string(),
        kind: "A".to_string(),
        content: "1.1.1.1".to_string(),
        source: source.to_string(),
    }
}

struct FakeBackend {
    records: Vec<Record>,
    fail: bool,
}

impl Backend for FakeBackend {
    fn read_records(&self) -> Result<Vec<Record>, Error> {
        if self.fail {
            Err(Error::Backend {
                backend: "Fake".to_string(),
                message: "read failed".to_string(),
            })
        } else {
            Ok(self.records.clone())
        }
    }
}

struct FakeFrontend {
    domain: String,
    seen: Vec<(Vec<Record>, bool)>,
}

impl FakeFrontend {
    fn new(domain: &str) -> Self {
        FakeFrontend { domain: domain.to_string(), seen: Vec::new() }
    }
}

impl Frontend for FakeFrontend {
    fn get_domain(&self) -> String {
        self.domain.clone()
    }

    fn set_records(&mut self, records: Vec<Record>, dry_run: bool) -> Result<(), Error> {
        self.seen.push((records, dry_run));
        Ok(())
    }
}

#[test]
fn sync_routes_each_record_to_the_most_specific_frontend() {
    let backends = vec![FakeBackend {
        records: vec![
            record("host.svc.example.com", "a"),
            record("web.example.com", "a"),
            record("outside.example.org", "a"),
        ],
        fail: false,
    }];
    // Given in the less specific order first: each pass serves the most
    // specific domain first, whatever the configured order.
    let frontends = vec![FakeFrontend::new("example.com"), FakeFrontend::new("svc.example.com")];
    let mut service = DNSSync::new(backends, frontends);
    let report = service.sync(false).expect("sync succeeds");

    assert_eq!(service.frontends[0].domain, "example.com");
    assert_eq!(service.frontends[1].domain, "svc.example.com");
    assert_eq!(service.frontends[1].seen.len(), 1);
    assert_eq!(service.frontends[1].seen[0].0.len(), 1);
    assert_eq!(service.frontends[1].seen[0].0[0].name, "host.svc.example.com");
    assert!(!service.frontends[1].seen[0].1);
    assert_eq!(service.frontends[0].seen.len(), 1);
    assert_eq!(service.frontends[0].seen[0].0.len(), 1);
    assert_eq!(service.frontends[0].seen[0].0[0].name, "web.example.com");

    assert_eq!(report.unrouted.len(), 1);
    assert_eq!(report.unrouted[0].name, "outside.example.org");
    assert_eq!(report.duplicates.len(), 0);
}

#[test]
fn sync_forwards_the_dry_run_flag() {
    let backends = vec![FakeBackend { records: vec![record("web.example.com", "a")], fail: false }];
    let frontends = vec![FakeFrontend::new("example.com")];
    let mut service = DNSSync::new(backends, frontends);
    service.sync(true).expect("sync succeeds");
    assert_eq!(service.frontends[0].seen.len(), 1);
    assert_eq!(service.frontends[0].seen[0].0.len(), 1);
    assert_eq!(service.frontends[0].seen[0].0[0].name, "web.example.com");
    assert!(service.frontends[0].seen[0].1);
}

#[test]
fn sync_reports_duplicates_from_distinct_backends() {
    let backends = vec![
        FakeBackend { records: vec![record("web.example.com", "one")], fail: false },
        FakeBackend { records: vec![record("web.example.com", "two")], fail: false },
    ];
    let frontends = vec![FakeFrontend::new("example.com")];
    let mut service = DNSSync::new(backends, frontends);
    let report = service.sync(true).expect("sync succeeds");
    assert_eq!(report.duplicates, vec![(0, 1)]);
}

#[test]
fn sync_with_nothing_configured_succeeds_with_an_empty_report() {
    let backends: Vec<FakeBackend> = Vec::new();
    let frontends: Vec<FakeFrontend> = Vec::new();
    let mut service = DNSSync::new(backends, frontends);
    let report = service.sync(false).expect("an empty pass has nothing to fail");
    assert_eq!(report.duplicates.len(), 0);
    assert_eq!(report.unrouted.len(), 0);
}

#[test]
fn sync_with_no_backends_warns_about_nothing() {
    let backends: Vec<FakeBackend> = Vec::new();
    let frontends = vec![FakeFrontend::new("example.com")];
    let mut service = DNSSync::new(backends, frontends);
    let report = service.sync(false).expect("frontends accept the empty authority");
    assert_eq!(report.duplicates.len(), 0);
    assert_eq!(report.unrouted.len(), 0);
    // The frontend is still driven, with the empty authority.
    assert_eq!(service.frontends[0].seen.len(), 1);
    assert_eq!(service.frontends[0].seen[0].0.len(), 0);
}

#[test]
fn sync_aborts_on_backend_failure_before_any_frontend_call() {
    let backends = vec![
        FakeBackend { records: vec![record("web.example.com", "a")], fail: false },
        FakeBackend { records: Vec::new(), fail: true },
    ];
    let frontends = vec![FakeFrontend::new("example.com")];
    let mut service = DNSSync::new(backends, frontends);
    assert!(service.sync(false).is_err());
    assert_eq!(service.frontends[0].seen.len(), 0);
}
