use vstd::prelude::*;
use vstd::string::*;

use crate::route53::{
    holds_value, is_first_named, record_set_views, srv_type, string_views, Change, ChangeAction,
    ChangeView, RecordSetView, ResourceRecordSet, SRV_TTL,
};
use crate::text::{copy_string, decimal_of, decimal_string, lower_of, lowercase};

verus! {

/// Annotation whose value is the hostname that SRV names end in.
pub open spec fn hostname_annotation() -> Seq<char> {
    "external-dns.alpha.kubernetes.io/hostname"@
}

/// Service type whose ports are published on every node.
pub open spec fn node_port_type() -> Seq<char> {
    "NodePort"@
}

/// One port of a service. Any field may be missing.
#[derive(Debug)]
pub struct ServicePort {
    pub name: Option<String>,
    pub protocol: Option<String>,
    pub node_port: Option<i32>,
}

/// The part of a service's spec that records are derived from.
#[derive(Debug)]
pub struct ServiceSpec {
    pub type_: Option<String>,
    pub ports: Option<Vec<ServicePort>>,
}

/// A service definition: its annotations, as key and value pairs, and its spec.
#[derive(Debug)]
pub struct Service {
    pub annotations: Option<Vec<(String, String)>>,
    pub spec: Option<ServiceSpec>,
}

/// A service record as plain values.
pub struct ServiceRecordView {
    pub hostname: Seq<char>,
    pub name: Seq<char>,
    pub protocol: Seq<char>,
    pub port: int,
}

/// `_{name}._{protocol}.{hostname}`
pub open spec fn srv_name(name: Seq<char>, protocol: Seq<char>, hostname: Seq<char>) -> Seq<
    char,
> {
    seq!['_'] + name + seq!['.', '_'] + protocol + seq!['.'] + hostname
}

/// `0 10 {port} {hostname}`: priority 0, weight 10.
pub open spec fn srv_value(port: int, hostname: Seq<char>) -> Seq<char> {
    seq!['0', ' ', '1', '0', ' '] + decimal_of(port) + seq![' '] + hostname
}

impl ServiceRecordView {
    pub open spec fn well_formed(self) -> bool {
        &&& self.hostname.len() > 0
        &&& self.name.len() > 0
        &&& self.protocol.len() > 0
    }

    #[verifier::opaque]
    pub open spec fn record_name(self) -> Seq<char> {
        srv_name(self.name, lower_of(self.protocol), self.hostname)
    }

    #[verifier::opaque]
    pub open spec fn record_value(self) -> Seq<char> {
        srv_value(self.port, self.hostname)
    }

    pub open spec fn record_set(self) -> RecordSetView {
        RecordSetView {
            name: self.record_name(),
            rr_type: srv_type(),
            ttl: Some(SRV_TTL),
            values: seq![self.record_value()],
        }
    }

    pub open spec fn upsert(self) -> ChangeView {
        ChangeView { action: ChangeAction::Upsert, record_set: self.record_set() }
    }

    pub open spec fn delete(self) -> ChangeView {
        ChangeView { action: ChangeAction::Delete, record_set: self.record_set() }
    }

    /// The change that brings `existing` to hold this record: none when the
    /// first record set of its name already holds its value, else an upsert.
    pub open spec fn reconcile(self, existing: Seq<RecordSetView>) -> Option<ChangeView> {
        if holds_value(existing, self.record_name(), self.record_value()) {
            None
        } else {
            Some(self.upsert())
        }
    }
}

/// A desired SRV record: a port of a service under the service's hostname.
#[derive(Debug)]
pub struct ServiceRecord {
    hostname: String,
    name: String,
    protocol: String,
    port: i32,
}

impl View for ServiceRecord {
    type V = ServiceRecordView;

    closed spec fn view(&self) -> ServiceRecordView {
        ServiceRecordView {
            hostname: self.hostname@,
            name: self.name@,
            protocol: self.protocol@,
            port: self.port as int,
        }
    }
}

pub open spec fn service_record_views(s: Seq<ServiceRecord>) -> Seq<ServiceRecordView> {
    s.map_values(|r: ServiceRecord| r@)
}

pub open spec fn option_change_view(c: Option<Change>) -> Option<ChangeView> {
    match c {
        Some(c) => Some(c@),
        None => None,
    }
}

/// `_{name}._{protocol}.{hostname}`, with `protocol` used as given.
pub fn compose_record_name(name: &str, protocol: &str, hostname: &str) -> (r: String)
    ensures
        r@ == srv_name(name@, protocol@, hostname@),
{
    let mut out = String::from_str("_");
    out.append(name);
    out.append("._");
    out.append(protocol);
    out.append(".");
    out.append(hostname);
    proof {
        reveal_strlit("_");
        reveal_strlit("._");
        reveal_strlit(".");
    }
    assert(out@ =~= srv_name(name@, protocol@, hostname@));
    out
}

impl ServiceRecord {
    /// A record for port `name`/`protocol` of a service reached at `hostname`;
    /// `None` when one of the three strings is empty.
    pub fn new(hostname: String, name: String, protocol: String, port: i32) -> (r: Option<
        ServiceRecord,
    >)
        ensures
            r is Some <==> hostname@.len() > 0 && name@.len() > 0 && protocol@.len() > 0,
            r matches Some(rec) ==> rec@ == (ServiceRecordView {
                hostname: hostname@,
                name: name@,
                protocol: protocol@,
                port: port as int,
            }),
    {
        if hostname.as_str().unicode_len() == 0 || name.as_str().unicode_len() == 0
            || protocol.as_str().unicode_len() == 0 {
            None
        } else {
            Some(ServiceRecord { hostname, name, protocol, port })
        }
    }

    pub fn hostname(&self) -> (r: &String)
        ensures
            r@ == self@.hostname,
    {
        &self.hostname
    }

    pub fn name(&self) -> (r: &String)
        ensures
            r@ == self@.name,
    {
        &self.name
    }

    pub fn protocol(&self) -> (r: &String)
        ensures
            r@ == self@.protocol,
    {
        &self.protocol
    }

    pub fn port(&self) -> (r: i32)
        ensures
            r as int == self@.port,
    {
        self.port
    }

    /// `_{name}._{protocol, lowercased}.{hostname}`
    pub fn record_name(&self) -> (r: String)
        ensures
            r@ == self@.record_name(),
    {
        reveal(ServiceRecordView::record_name);
        let protocol = lowercase(self.protocol.as_str());
        compose_record_name(self.name.as_str(), protocol.as_str(), self.hostname.as_str())
    }

    /// `0 10 {port} {hostname}`
    pub fn record_value(&self) -> (r: String)
        ensures
            r@ == self@.record_value(),
    {
        reveal(ServiceRecordView::record_value);
        let mut out = String::from_str("0 10 ");
        let port = decimal_string(self.port);
        out.append(port.as_str());
        out.append(" ");
        out.append(self.hostname.as_str());
        proof {
            reveal_strlit("0 10 ");
            reveal_strlit(" ");
        }
        assert(out@ =~= self@.record_value());
        out
    }

    /// The SRV record set that publishes this record.
    pub fn record_set(&self) -> (r: ResourceRecordSet)
        ensures
            r@ == self@.record_set(),
    {
        let mut values: Vec<String> = Vec::new();
        values.push(self.record_value());
        let r = ResourceRecordSet {
            name: self.record_name(),
            rr_type: String::from_str("SRV"),
            ttl: Some(SRV_TTL),
            values,
        };
        assert(r@.values =~= seq![self@.record_value()]);
        r
    }

    /// The record as an upsert change.
    pub fn as_upsert(&self) -> (r: Change)
        ensures
            r@ == self@.upsert(),
    {
        Change { action: ChangeAction::Upsert, record_set: self.record_set() }
    }

    /// The record as a change that creates it; the provider creates by upsert.
    pub fn as_create(&self) -> (r: Change)
        ensures
            r@ == self@.upsert(),
    {
        self.as_upsert()
    }

    /// The record as a delete change.
    pub fn as_delete(&self) -> (r: Change)
        ensures
            r@ == self@.delete(),
    {
        Change { action: ChangeAction::Delete, record_set: self.record_set() }
    }

    /// The change, if any, that makes `existing_records` hold this record. Only
    /// the first record set of the record's name is looked at: if it holds the
    /// record's value nothing is to be done, else (or if there is no record set
    /// of that name) the record is upserted with its value alone.
    pub fn reconcile_with(&self, existing_records: &[ResourceRecordSet]) -> (r: Option<Change>)
        ensures
            option_change_view(r) == self@.reconcile(record_set_views(existing_records@)),
    {
        let ghost s = record_set_views(existing_records@);
        let name = self.record_name();
        let value = self.record_value();
        let mut i: usize = 0;
        while i < existing_records.len()
            invariant
                i <= existing_records@.len(),
                s == record_set_views(existing_records@),
                name@ == self@.record_name(),
                value@ == self@.record_value(),
                forall|j: int| 0 <= j < i ==> s[j].name != name@,
            decreases existing_records@.len() - i,
        {
            let existing = &existing_records[i];
            if existing.name == name {
                assert(is_first_named(s, name@, i as int));
                let values = &existing.values;
                let mut k: usize = 0;
                while k < values.len()
                    invariant
                        k <= values@.len(),
                        i < s.len(),
                        is_first_named(s, name@, i as int),
                        s[i as int].values == string_views(values@),
                        value@ == self@.record_value(),
                        name@ == self@.record_name(),
                        s == record_set_views(existing_records@),
                        forall|m: int| 0 <= m < k ==> values@[m]@ != value@,
                    decreases values@.len() - k,
                {
                    if values[k] == value {
                        assert(s[i as int].values[k as int] == value@);
                        assert(holds_value(s, name@, value@)) by {
                            reveal(holds_value);
                        }
                        return None;
                    }
                    k = k + 1;
                }
                assert(!holds_value(s, name@, value@)) by {
                    reveal(holds_value);
                    if exists|f: int| is_first_named(s, name@, f) && s[f].values.contains(value@) {
                        let f = choose|f: int|
                            is_first_named(s, name@, f) && s[f].values.contains(value@);
                        assert(f == i);
                    }
                }
                return Some(self.as_upsert());
            }
            i = i + 1;
        }
        assert(!holds_value(s, name@, value@)) by {
            reveal(holds_value);
        }
        return Some(self.as_create());
    }
}

/// The value of the first annotation under `key`, if any.
pub open spec fn annotation(anns: Seq<(String, String)>, key: Seq<char>) -> Option<Seq<char>>
    decreases anns.len(),
{
    if anns.len() == 0 {
        None
    } else if anns[0].0@ == key {
        Some(anns[0].1@)
    } else {
        annotation(anns.drop_first(), key)
    }
}

/// The record of one port under `hostname`: `None` when its name, protocol
/// or node port is missing, or its name or protocol is empty.
pub open spec fn port_record(port: ServicePort, hostname: Seq<char>) -> Option<ServiceRecordView> {
    match (port.name, port.protocol, port.node_port) {
        (Some(name), Some(protocol), Some(node_port)) => {
            if name@.len() > 0 && protocol@.len() > 0 {
                Some(
                    ServiceRecordView {
                        hostname,
                        name: name@,
                        protocol: protocol@,
                        port: node_port as int,
                    },
                )
            } else {
                None
            }
        },
        _ => None,
    }
}

/// The records of the well-formed ports, in port order.
pub open spec fn port_records(ports: Seq<ServicePort>, hostname: Seq<char>) -> Seq<
    ServiceRecordView,
>
    decreases ports.len(),
{
    if ports.len() == 0 {
        seq![]
    } else {
        let rest = port_records(ports.drop_last(), hostname);
        match port_record(ports.last(), hostname) {
            Some(r) => rest.push(r),
            None => rest,
        }
    }
}

/// The records a service asks for: `None` unless it has annotations, a spec,
/// the node-port type, a non-empty hostname annotation and a port list.
pub open spec fn derive_records(service: Service) -> Option<Seq<ServiceRecordView>> {
    match (service.annotations, service.spec) {
        (Some(anns), Some(spec)) => match (
            spec.type_,
            annotation(anns@, hostname_annotation()),
            spec.ports,
        ) {
            (Some(t), Some(hostname), Some(ports)) => {
                if t@ == node_port_type() && hostname.len() > 0 {
                    Some(port_records(ports@, hostname))
                } else {
                    None
                }
            },
            _ => None,
        },
        _ => None,
    }
}

fn find_annotation<'a>(anns: &'a Vec<(String, String)>, key: &String) -> (r: Option<&'a String>)
    ensures
        match r {
            Some(v) => annotation(anns@, key@) == Some(v@),
            None => annotation(anns@, key@) is None,
        },
{
    let mut i: usize = 0;
    assert(anns@.subrange(0, anns@.len() as int) =~= anns@);
    while i < anns.len()
        invariant
            i <= anns@.len(),
            annotation(anns@, key@) == annotation(anns@.subrange(i as int, anns@.len() as int), key@),
        decreases anns@.len() - i,
    {
        let ghost rest = anns@.subrange(i as int, anns@.len() as int);
        assert(rest[0] == anns@[i as int]);
        if anns[i].0 == *key {
            return Some(&anns[i].1);
        }
        assert(rest.drop_first() =~= anns@.subrange(i + 1, anns@.len() as int));
        i = i + 1;
    }
    None
}

/// The records that `service` asks for, one per well-formed port in port
/// order; `None` when the service is not eligible (see `derive_records`).
pub fn map_to_records(service: &Service) -> (r: Option<Vec<ServiceRecord>>)
    ensures
        match r {
            Some(v) => derive_records(*service) == Some(service_record_views(v@)),
            None => derive_records(*service) is None,
        },
        r matches Some(v) ==> forall|k: int| 0 <= k < v@.len() ==> (#[trigger] v@[k])@.well_formed(),
{
    let anns = match &service.annotations {
        Some(anns) => anns,
        None => return None,
    };
    let spec = match &service.spec {
        Some(spec) => spec,
        None => return None,
    };
    let type_ = match &spec.type_ {
        Some(t) => t,
        None => return None,
    };
    if *type_ != String::from_str("NodePort") {
        return None;
    }
    let key = String::from_str("external-dns.alpha.kubernetes.io/hostname");
    let hostname = match find_annotation(anns, &key) {
        Some(h) => h,
        None => return None,
    };
    if hostname.as_str().unicode_len() == 0 {
        return None;
    }
    let ports = match &spec.ports {
        Some(ports) => ports,
        None => return None,
    };
    let mut out: Vec<ServiceRecord> = Vec::new();
    let mut i: usize = 0;
    while i < ports.len()
        invariant
            i <= ports@.len(),
            hostname@.len() > 0,
            service_record_views(out@) == port_records(ports@.subrange(0, i as int), hostname@),
            forall|k: int| 0 <= k < out@.len() ==> (#[trigger] out@[k])@.well_formed(),
        decreases ports@.len() - i,
    {
        let port = &ports[i];
        assert(ports@.subrange(0, i + 1).drop_last() =~= ports@.subrange(0, i as int));
        assert(ports@.subrange(0, i + 1).last() == ports@[i as int]);
        match (&port.name, &port.protocol, port.node_port) {
            (Some(name), Some(protocol), Some(node_port)) => {
                if name.as_str().unicode_len() > 0 && protocol.as_str().unicode_len() > 0 {
                    let rec = ServiceRecord {
                        hostname: copy_string(hostname),
                        name: copy_string(name),
                        protocol: copy_string(protocol),
                        port: node_port,
                    };
                    let ghost before = out@;
                    let ghost rv = rec@;
                    out.push(rec);
                    assert(service_record_views(out@) =~= service_record_views(before).push(rv));
                }
            },
            _ => {},
        }
        i = i + 1;
    }
    assert(ports@.subrange(0, ports@.len() as int) =~= ports@);
    Some(out)
}

} // verus!
