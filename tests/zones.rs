use srv_sync::kubernetes::ServiceRecord;
use srv_sync::route53::{
    batch_changes, resolve_zone, HostedZone, ListRequest, RecordListing, RecordPage, ResourceRecordSet, ZoneListing,
};

fn zone(id: &str, name: &str) -> HostedZone {
    HostedZone { id: id.to_string(), name: name.to_string() }
}

fn upsert(host: &str, port: i32) -> srv_sync::route53::Change {
    ServiceRecord::new(host.to_string(), "http".to_string(), "TCP".to_string(), port).unwrap().as_upsert()
}

fn set(name: &str) -> ResourceRecordSet {
    ResourceRecordSet { name: name.to_string(), rr_type: "SRV".to_string(), ttl: None, values: vec![] }
}

#[test]
fn longest_suffix_wins() {
    let zones = vec![zone("Z1", "example.com."), zone("Z2", "b.example.com.")];
    assert_eq!(resolve_zone(&zones, "a.b.example.com"), Some(1));
    assert_eq!(resolve_zone(&zones, "c.example.com"), Some(0));
    assert_eq!(resolve_zone(&zones, "example.org"), None);
    let reversed = vec![zone("Z2", "b.example.com"), zone("Z1", "example.com")];
    assert_eq!(resolve_zone(&reversed, "a.b.example.com."), Some(0));
}

#[test]
fn equal_names_resolve_to_the_first() {
    let zones = vec![zone("Z1", "example.com."), zone("Z9", "example.com")];
    assert_eq!(resolve_zone(&zones, "x.example.com"), Some(0));
    assert_eq!(resolve_zone(&[], "x.example.com"), None);
}

#[test]
fn one_batch_per_zone() {
    let zones = vec![zone("Z1", "example.com."), zone("Z2", "example.org.")];
    let changes = vec![
        upsert("a.example.com", 30001),
        upsert("b.example.org", 30002),
        upsert("c.example.com", 30003),
        upsert("d.example.net", 30004),
    ];
    let (batches, unresolved) = batch_changes(&zones, changes);
    assert_eq!(batches.len(), 2);
    assert_eq!(batches[0].zone_id, "Z1");
    let names: Vec<&str> = batches[0].changes.iter().map(|c| c.record_set.name.as_str()).collect();
    assert_eq!(names, vec!["_http._tcp.a.example.com", "_http._tcp.c.example.com"]);
    assert_eq!(batches[1].zone_id, "Z2");
    assert_eq!(batches[1].changes.len(), 1);
    assert_eq!(batches[1].changes[0].record_set.name, "_http._tcp.b.example.org");
    assert_eq!(unresolved.len(), 1);
    assert_eq!(unresolved[0].record_set.name, "_http._tcp.d.example.net");
}

#[test]
fn nested_zones_get_separate_batches() {
    let zones = vec![zone("Z1", "example.com."), zone("Z2", "b.example.com.")];
    let changes = vec![upsert("a.b.example.com", 30001), upsert("a.example.com", 30002)];
    let (batches, unresolved) = batch_changes(&zones, changes);
    assert!(unresolved.is_empty());
    assert_eq!(batches.len(), 2);
    assert_eq!(batches[0].zone_id, "Z2");
    assert_eq!(batches[1].zone_id, "Z1");
}

#[test]
fn no_changes_no_batches() {
    let zones = vec![zone("Z1", "example.com.")];
    let (batches, unresolved) = batch_changes(&zones, vec![]);
    assert!(batches.is_empty());
    assert!(unresolved.is_empty());
}

fn request_of(r: &Option<ListRequest>) -> Option<(String, Option<String>)> {
    r.as_ref().map(|q| (q.zone_id.clone(), q.start_record_name.clone()))
}

#[test]
fn record_listing_follows_cursors_zone_by_zone() {
    let zones = vec![zone("Z1", "example.com."), zone("Z2", "example.org.")];
    let mut listing = RecordListing::new(&zones);
    assert_eq!(request_of(&listing.next_request()), Some(("Z1".to_string(), None)));
    listing.receive(RecordPage {
        record_sets: vec![set("a"), set("b")],
        is_truncated: true,
        next_record_name: Some("c".to_string()),
    });
    assert_eq!(request_of(&listing.next_request()), Some(("Z1".to_string(), Some("c".to_string()))));
    listing.receive(RecordPage { record_sets: vec![set("c")], is_truncated: false, next_record_name: None });
    assert_eq!(request_of(&listing.next_request()), Some(("Z2".to_string(), None)));
    listing.receive(RecordPage { record_sets: vec![set("x")], is_truncated: false, next_record_name: None });
    assert!(listing.next_request().is_none());
    listing.receive(RecordPage { record_sets: vec![set("ignored")], is_truncated: false, next_record_name: None });
    let names: Vec<String> = listing.into_records().into_iter().map(|r| r.name).collect();
    assert_eq!(names, vec!["a", "b", "c", "x"]);
}

#[test]
fn record_listing_of_no_zones_is_done() {
    let listing = RecordListing::new(&[]);
    assert!(listing.next_request().is_none());
    assert!(listing.into_records().is_empty());
}

#[test]
fn zone_listing_drains_pages() {
    let mut listing = ZoneListing::new();
    assert_eq!(listing.next_request().map(|q| q.marker), Some(None));
    listing.receive(vec![zone("Z1", "a.")], true, Some("m1".to_string()));
    assert_eq!(listing.next_request().map(|q| q.marker), Some(Some("m1".to_string())));
    listing.receive(vec![zone("Z2", "b.")], false, Some("m2".to_string()));
    assert!(listing.next_request().is_none());
    listing.receive(vec![zone("Z3", "c.")], true, Some("m3".to_string()));
    let ids: Vec<String> = listing.into_zones().into_iter().map(|z| z.id).collect();
    assert_eq!(ids, vec!["Z1", "Z2"]);
}

#[test]
fn zone_listing_stops_on_truncated_page_without_marker() {
    let mut listing = ZoneListing::new();
    listing.receive(vec![zone("Z1", "a.")], true, None);
    assert!(listing.next_request().is_none());
}
