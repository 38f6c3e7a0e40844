use srv_sync::discovery::discover_services;
use srv_sync::kubernetes::{map_to_records, Service, ServicePort, ServiceRecord, ServiceSpec};
use srv_sync::route53::ChangeAction;
use srv_sync::text::{decimal_string, ends_with_trimmed};

const KEY: &str = "external-dns.alpha.kubernetes.io/hostname";

fn port(name: Option<&str>, protocol: Option<&str>, node_port: Option<i32>) -> ServicePort {
    ServicePort {
        name: name.map(|s| s.to_string()),
        protocol: protocol.map(|s| s.to_string()),
        node_port,
    }
}

fn service(type_: &str, hostname: Option<&str>, ports: Vec<ServicePort>) -> Service {
    let mut annotations = vec![("other".to_string(), "x".to_string())];
    if let Some(h) = hostname {
        annotations.push((KEY.to_string(), h.to_string()));
    }
    Service {
        annotations: Some(annotations),
        spec: Some(ServiceSpec { type_: Some(type_.to_string()), ports: Some(ports) }),
    }
}

#[test]
fn well_formed_port_gives_one_record() {
    let svc = service("NodePort", Some("svc.example.com"), vec![port(Some("http"), Some("TCP"), Some(31080))]);
    let records = map_to_records(&svc).unwrap();
    assert_eq!(records.len(), 1);
    assert_eq!(records[0].record_name(), "_http._tcp.svc.example.com");
    assert_eq!(records[0].record_value(), "0 10 31080 svc.example.com");
}

#[test]
fn other_service_types_give_nothing() {
    for t in ["ClusterIP", "LoadBalancer", "ExternalName", "nodeport"] {
        let svc = service(t, Some("svc.example.com"), vec![port(Some("http"), Some("TCP"), Some(31080))]);
        assert!(map_to_records(&svc).is_none());
    }
    let no_type = Service {
        annotations: Some(vec![(KEY.to_string(), "svc.example.com".to_string())]),
        spec: Some(ServiceSpec { type_: None, ports: Some(vec![port(Some("http"), Some("TCP"), Some(1))]) }),
    };
    assert!(map_to_records(&no_type).is_none());
}

#[test]
fn missing_or_empty_hostname_gives_nothing() {
    let ports = || vec![port(Some("http"), Some("TCP"), Some(31080))];
    assert!(map_to_records(&service("NodePort", None, ports())).is_none());
    assert!(map_to_records(&service("NodePort", Some(""), ports())).is_none());
    let no_annotations = Service {
        annotations: None,
        spec: Some(ServiceSpec { type_: Some("NodePort".to_string()), ports: Some(ports()) }),
    };
    assert!(map_to_records(&no_annotations).is_none());
}

#[test]
fn malformed_ports_are_skipped_one_by_one() {
    let svc = service(
        "NodePort",
        Some("svc.example.com"),
        vec![
            port(None, Some("TCP"), Some(30001)),
            port(Some("dns"), Some("UDP"), Some(30053)),
            port(Some("web"), None, Some(30002)),
            port(Some("ssh"), Some("TCP"), None),
            port(Some(""), Some("TCP"), Some(30003)),
            port(Some("https"), Some("tcp"), Some(30443)),
        ],
    );
    let records = map_to_records(&svc).unwrap();
    let names: Vec<String> = records.iter().map(|r| r.record_name()).collect();
    assert_eq!(names, vec!["_dns._udp.svc.example.com", "_https._tcp.svc.example.com"]);
    assert_eq!(records[1].record_value(), "0 10 30443 svc.example.com");
}

#[test]
fn first_hostname_annotation_is_used() {
    let svc = Service {
        annotations: Some(vec![
            (KEY.to_string(), "a.example.com".to_string()),
            (KEY.to_string(), "b.example.com".to_string()),
        ]),
        spec: Some(ServiceSpec {
            type_: Some("NodePort".to_string()),
            ports: Some(vec![port(Some("http"), Some("TCP"), Some(31080))]),
        }),
    };
    let records = map_to_records(&svc).unwrap();
    assert_eq!(records[0].hostname(), "a.example.com");
}

#[test]
fn discovery_concatenates_services_in_order() {
    let services = vec![
        service("NodePort", Some("a.example.com"), vec![port(Some("http"), Some("TCP"), Some(30080))]),
        service("ClusterIP", Some("b.example.com"), vec![port(Some("http"), Some("TCP"), Some(30081))]),
        service(
            "NodePort",
            Some("c.example.com"),
            vec![port(Some("x"), Some("UDP"), Some(30001)), port(Some("y"), Some("SCTP"), Some(30002))],
        ),
    ];
    let records = discover_services(&services);
    let names: Vec<String> = records.iter().map(|r| r.record_name()).collect();
    assert_eq!(names, vec!["_http._tcp.a.example.com", "_x._udp.c.example.com", "_y._sctp.c.example.com"]);
}

#[test]
fn protocol_is_lowercased_in_the_name() {
    let rec = ServiceRecord::new("h.example.com".to_string(), "Web".to_string(), "TCP".to_string(), 30000).unwrap();
    assert_eq!(rec.record_name(), "_Web._tcp.h.example.com");
    assert_eq!(rec.protocol(), "TCP");
    assert_eq!(rec.name(), "Web");
    assert_eq!(rec.port(), 30000);
}

#[test]
fn new_refuses_empty_fields() {
    assert!(ServiceRecord::new(String::new(), "a".to_string(), "TCP".to_string(), 1).is_none());
    assert!(ServiceRecord::new("h".to_string(), String::new(), "TCP".to_string(), 1).is_none());
    assert!(ServiceRecord::new("h".to_string(), "a".to_string(), String::new(), 1).is_none());
    assert!(ServiceRecord::new("h".to_string(), "a".to_string(), "TCP".to_string(), 1).is_some());
}

#[test]
fn record_set_shape() {
    let rec = ServiceRecord::new("svc.example.com".to_string(), "http".to_string(), "TCP".to_string(), 31080).unwrap();
    let set = rec.record_set();
    assert_eq!(set.name, "_http._tcp.svc.example.com");
    assert_eq!(set.rr_type, "SRV");
    assert_eq!(set.ttl, Some(1800));
    assert_eq!(set.values, vec!["0 10 31080 svc.example.com".to_string()]);
    assert_eq!(rec.as_upsert().action, ChangeAction::Upsert);
    assert_eq!(rec.as_create().action, ChangeAction::Upsert);
    let delete = rec.as_delete();
    assert_eq!(delete.action, ChangeAction::Delete);
    assert_eq!(delete.record_set.values, vec!["0 10 31080 svc.example.com".to_string()]);
}

#[test]
fn decimal_forms() {
    assert_eq!(decimal_string(0), "0");
    assert_eq!(decimal_string(7), "7");
    assert_eq!(decimal_string(31080), "31080");
    assert_eq!(decimal_string(-45), "-45");
    assert_eq!(decimal_string(i32::MAX), "2147483647");
    assert_eq!(decimal_string(i32::MIN), "-2147483648");
}

#[test]
fn suffix_ignores_trailing_dots() {
    assert!(ends_with_trimmed("a.b.example.com", "example.com."));
    assert!(ends_with_trimmed("a.b.example.com.", "b.example.com"));
    assert!(ends_with_trimmed("example.com", "example.com.."));
    assert!(!ends_with_trimmed("example.com", "a.example.com"));
    assert!(!ends_with_trimmed("a.example.org", "example.com"));
    assert!(ends_with_trimmed("anything", "."));
}
