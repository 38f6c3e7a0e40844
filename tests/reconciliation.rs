use srv_sync::kubernetes::{Service, ServicePort, ServiceRecord, ServiceSpec};
use srv_sync::reconcile::{
    calculate_reconciliation_step, initial_sync_changes, reconcile_records, step, Action, Event, Input, Phase,
};
use srv_sync::route53::{ChangeAction, ResourceRecordSet};

fn record(port: i32) -> ServiceRecord {
    ServiceRecord::new("svc.example.com".to_string(), "http".to_string(), "TCP".to_string(), port).unwrap()
}

fn set(name: &str, rr_type: &str, values: &[&str]) -> ResourceRecordSet {
    ResourceRecordSet {
        name: name.to_string(),
        rr_type: rr_type.to_string(),
        ttl: Some(300),
        values: values.iter().map(|v| v.to_string()).collect(),
    }
}

fn node_port_service(ports: Vec<(&str, &str, i32)>) -> Service {
    Service {
        annotations: Some(vec![(
            "external-dns.alpha.kubernetes.io/hostname".to_string(),
            "svc.example.com".to_string(),
        )]),
        spec: Some(ServiceSpec {
            type_: Some("NodePort".to_string()),
            ports: Some(
                ports
                    .into_iter()
                    .map(|(n, p, np)| ServicePort {
                        name: Some(n.to_string()),
                        protocol: Some(p.to_string()),
                        node_port: Some(np),
                    })
                    .collect(),
            ),
        }),
    }
}

#[test]
fn matching_value_needs_no_change() {
    let existing = vec![
        set("other.example.com", "A", &["10.0.0.1"]),
        set("_http._tcp.svc.example.com", "SRV", &["0 10 1 x.example.com", "0 10 31080 svc.example.com"]),
    ];
    assert!(record(31080).reconcile_with(&existing).is_none());
}

#[test]
fn different_value_is_replaced_by_the_new_value_alone() {
    let existing = vec![set("_http._tcp.svc.example.com", "SRV", &["0 10 9999 svc.example.com"])];
    let change = record(31080).reconcile_with(&existing).unwrap();
    assert_eq!(change.action, ChangeAction::Upsert);
    assert_eq!(change.record_set.name, "_http._tcp.svc.example.com");
    assert_eq!(change.record_set.values, vec!["0 10 31080 svc.example.com".to_string()]);
    assert_eq!(change.record_set.ttl, Some(1800));
}

#[test]
fn missing_name_is_created() {
    let existing = vec![set("_https._tcp.svc.example.com", "SRV", &["0 10 31080 svc.example.com"])];
    let change = record(31080).reconcile_with(&existing).unwrap();
    assert_eq!(change.action, ChangeAction::Upsert);
    assert_eq!(change.record_set.name, "_http._tcp.svc.example.com");
    assert_eq!(change.record_set.rr_type, "SRV");
    assert!(record(31080).reconcile_with(&[]).is_some());
}

#[test]
fn only_the_first_set_of_a_name_counts() {
    let existing = vec![
        set("_http._tcp.svc.example.com", "TXT", &["hello"]),
        set("_http._tcp.svc.example.com", "SRV", &["0 10 31080 svc.example.com"]),
    ];
    assert!(record(31080).reconcile_with(&existing).is_some());
    let empty = vec![set("_http._tcp.svc.example.com", "SRV", &[])];
    assert!(record(31080).reconcile_with(&empty).is_some());
}

#[test]
fn rerun_after_apply_is_empty() {
    let records = vec![record(31080)];
    let mut existing = vec![set("_http._tcp.svc.example.com", "SRV", &["0 10 9999 svc.example.com"])];
    let changes = reconcile_records(&records, &existing);
    assert_eq!(changes.len(), 1);
    existing[0] = changes.into_iter().next().unwrap().record_set;
    assert!(reconcile_records(&records, &existing).is_empty());
}

#[test]
fn applied_event_reconciles_each_port() {
    let svc = node_port_service(vec![("http", "TCP", 31080), ("dns", "UDP", 30053)]);
    let existing = vec![set("_http._tcp.svc.example.com", "SRV", &["0 10 31080 svc.example.com"])];
    let changes = calculate_reconciliation_step(&Event::Applied(svc), &existing);
    assert_eq!(changes.len(), 1);
    assert_eq!(changes[0].action, ChangeAction::Upsert);
    assert_eq!(changes[0].record_set.name, "_dns._udp.svc.example.com");
    assert_eq!(changes[0].record_set.values, vec!["0 10 30053 svc.example.com".to_string()]);
}

#[test]
fn deleted_event_deletes_every_record_whatever_exists() {
    let svc = node_port_service(vec![("http", "TCP", 31080), ("dns", "UDP", 30053)]);
    let changes = calculate_reconciliation_step(&Event::Deleted(svc), &[]);
    assert_eq!(changes.len(), 2);
    assert!(changes.iter().all(|c| c.action == ChangeAction::Delete));
    assert_eq!(changes[0].record_set.name, "_http._tcp.svc.example.com");
    assert_eq!(changes[1].record_set.name, "_dns._udp.svc.example.com");
    assert_eq!(changes[1].record_set.values, vec!["0 10 30053 svc.example.com".to_string()]);
}

#[test]
fn restarted_event_changes_nothing() {
    let svc = node_port_service(vec![("http", "TCP", 31080)]);
    assert!(calculate_reconciliation_step(&Event::Restarted(vec![svc]), &[]).is_empty());
}

#[test]
fn initial_sync_covers_every_service() {
    let services = vec![
        node_port_service(vec![("http", "TCP", 31080)]),
        node_port_service(vec![("dns", "UDP", 30053)]),
    ];
    let existing = vec![set("_dns._udp.svc.example.com", "SRV", &["0 10 30053 svc.example.com"])];
    let changes = initial_sync_changes(&services, &existing);
    assert_eq!(changes.len(), 1);
    assert_eq!(changes[0].record_set.name, "_http._tcp.svc.example.com");
}

#[test]
fn loop_phases() {
    let (p, a) = step(Phase::Init, Input::Start);
    assert_eq!(p, Phase::InitialSync);
    assert!(matches!(a, Action::FullSync));
    let (p, a) = step(p, Input::SyncDone);
    assert_eq!(p, Phase::Watching);
    assert!(matches!(a, Action::Wait));
    let svc = node_port_service(vec![("http", "TCP", 31080)]);
    let (p, a) = step(p, Input::Notified(Event::Applied(svc)));
    assert_eq!(p, Phase::Watching);
    assert!(matches!(a, Action::Reconcile(Event::Applied(_))));
    let (p, a) = step(p, Input::Notified(Event::Restarted(vec![])));
    assert_eq!(p, Phase::Watching);
    assert!(matches!(a, Action::Wait));
    let (p, a) = step(p, Input::StreamEnded);
    assert_eq!(p, Phase::Shutdown);
    assert!(matches!(a, Action::Exit));
    let (p, a) = step(p, Input::Start);
    assert_eq!(p, Phase::Shutdown);
    assert!(matches!(a, Action::Exit));
}

#[test]
fn signals_and_failures_stop_from_any_phase() {
    for phase in [Phase::Init, Phase::InitialSync, Phase::Watching, Phase::Shutdown] {
        for input in [Input::Terminated, Input::StreamFailed, Input::StreamEnded] {
            let (p, a) = step(phase, input);
            assert_eq!(p, Phase::Shutdown);
            assert!(matches!(a, Action::Exit));
        }
    }
    let svc = node_port_service(vec![("http", "TCP", 31080)]);
    let (p, a) = step(Phase::InitialSync, Input::Notified(Event::Deleted(svc)));
    assert_eq!(p, Phase::InitialSync);
    assert!(matches!(a, Action::Wait));
}
