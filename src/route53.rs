use vstd::prelude::*;

use crate::text::{copy_string, ends_with_trimmed, is_suffix, trim_dots, trimmed_len};

verus! {

/// TTL, in seconds, of every SRV record set that is written.
pub const SRV_TTL: i64 = 1800;

/// Record type of the record sets that are managed.
pub open spec fn srv_type() -> Seq<char> {
    "SRV"@
}

/// What a change does to the record set it carries.
#[derive(Clone, Copy, Debug, PartialEq, Eq, Structural)]
pub enum ChangeAction {
    /// Create the record set, or replace the one of the same name and type.
    Upsert,
    /// Remove the record set of the same name and type.
    Delete,
}

/// A record set as plain values.
pub struct RecordSetView {
    pub name: Seq<char>,
    pub rr_type: Seq<char>,
    pub ttl: Option<i64>,
    pub values: Seq<Seq<char>>,
}

/// A record set of a hosted zone: name, type, TTL and its values in order.
#[derive(Debug)]
pub struct ResourceRecordSet {
    pub name: String,
    pub rr_type: String,
    pub ttl: Option<i64>,
    pub values: Vec<String>,
}

pub open spec fn string_views(v: Seq<String>) -> Seq<Seq<char>> {
    v.map_values(|s: String| s@)
}

impl View for ResourceRecordSet {
    type V = RecordSetView;

    open spec fn view(&self) -> RecordSetView {
        RecordSetView {
            name: self.name@,
            rr_type: self.rr_type@,
            ttl: self.ttl,
            values: string_views(self.values@),
        }
    }
}

pub open spec fn record_set_views(s: Seq<ResourceRecordSet>) -> Seq<RecordSetView> {
    s.map_values(|r: ResourceRecordSet| r@)
}

/// A change as plain values.
pub struct ChangeView {
    pub action: ChangeAction,
    pub record_set: RecordSetView,
}

/// One change to submit: an action on a record set.
#[derive(Debug)]
pub struct Change {
    pub action: ChangeAction,
    pub record_set: ResourceRecordSet,
}

impl View for Change {
    type V = ChangeView;

    open spec fn view(&self) -> ChangeView {
        ChangeView { action: self.action, record_set: self.record_set@ }
    }
}

pub open spec fn change_views(s: Seq<Change>) -> Seq<ChangeView> {
    s.map_values(|c: Change| c@)
}

/// `i` is the first position of `s` whose record set is named `name`.
pub open spec fn is_first_named(s: Seq<RecordSetView>, name: Seq<char>, i: int) -> bool {
    &&& 0 <= i < s.len()
    &&& s[i].name == name
    &&& forall|j: int| 0 <= j < i ==> s[j].name != name
}

/// The first record set of `s` named `name` exists and holds `value` among its values.
#[verifier::opaque]
pub open spec fn holds_value(s: Seq<RecordSetView>, name: Seq<char>, value: Seq<char>) -> bool {
    exists|i: int| is_first_named(s, name, i) && s[i].values.contains(value)
}


/// A hosted zone: its id and its domain name.
#[derive(Debug)]
pub struct HostedZone {
    pub id: String,
    pub name: String,
}

/// The zone's name, trailing dots aside, ends `hostname`, trailing dots aside.
pub open spec fn zone_matches(zone: HostedZone, hostname: Seq<char>) -> bool {
    is_suffix(trim_dots(zone.name@), trim_dots(hostname))
}

pub open spec fn zone_len(zone: HostedZone) -> int {
    trim_dots(zone.name@).len() as int
}

/// `zones[i]` is the zone that owns `hostname`: it matches, no zone has a
/// longer match, and no zone before it has one as long.
pub open spec fn is_owning_zone(zones: Seq<HostedZone>, hostname: Seq<char>, i: int) -> bool {
    &&& 0 <= i < zones.len()
    &&& zone_matches(zones[i], hostname)
    &&& forall|j: int|
        0 <= j < zones.len() && #[trigger] zone_matches(zones[j], hostname) ==> zone_len(zones[j])
            <= zone_len(zones[i]) && (j < i ==> zone_len(zones[j]) < zone_len(zones[i]))
}

/// Position of the zone that owns `hostname`, if any zone matches it.
pub open spec fn owning_zone(zones: Seq<HostedZone>, hostname: Seq<char>) -> Option<int> {
    if exists|i: int| is_owning_zone(zones, hostname, i) {
        Some(choose|i: int| is_owning_zone(zones, hostname, i))
    } else {
        None
    }
}

/// Id of the zone that owns `hostname`, if any zone matches it.
pub open spec fn owning_zone_id(zones: Seq<HostedZone>, hostname: Seq<char>) -> Option<Seq<char>> {
    match owning_zone(zones, hostname) {
        Some(i) => Some(zones[i].id@),
        None => None,
    }
}

proof fn lemma_owning_zone_unique(zones: Seq<HostedZone>, hostname: Seq<char>, i: int, k: int)
    requires
        is_owning_zone(zones, hostname, i),
        is_owning_zone(zones, hostname, k),
    ensures
        i == k,
{
    assert(zone_matches(zones[i], hostname));
    assert(zone_matches(zones[k], hostname));
}

/// Longest suffix wins: of two zones that both match `hostname`, the one
/// with the shorter name (trailing dots aside) does not own it.
pub proof fn lemma_longest_suffix_wins(zones: Seq<HostedZone>, hostname: Seq<char>, i: int, j: int)
    requires
        0 <= i < zones.len(),
        0 <= j < zones.len(),
        zone_matches(zones[i], hostname),
        zone_matches(zones[j], hostname),
        zone_len(zones[i]) < zone_len(zones[j]),
    ensures
        owning_zone(zones, hostname) != Some(i),
{
    if owning_zone(zones, hostname) == Some(i) {
        assert(is_owning_zone(zones, hostname, i));
    }
}

/// The zone that owns `hostname`: of the zones whose name (trailing dots
/// aside) ends `hostname` (trailing dots aside), the one with the longest
/// name, the first of those on a tie; `None` when no zone matches.
pub fn resolve_zone(zones: &[HostedZone], hostname: &str) -> (r: Option<usize>)
    ensures
        match r {
            Some(i) => is_owning_zone(zones@, hostname@, i as int) && owning_zone(zones@, hostname@)
                == Some(i as int),
            None => owning_zone(zones@, hostname@) is None && forall|j: int|
                0 <= j < zones@.len() ==> !zone_matches(#[trigger] zones@[j], hostname@),
        },
{
    let mut best: Option<usize> = None;
    let mut best_len: usize = 0;
    let mut i: usize = 0;
    while i < zones.len()
        invariant
            i <= zones@.len(),
            match best {
                Some(b) => {
                    &&& b < i
                    &&& zone_matches(zones@[b as int], hostname@)
                    &&& best_len == zone_len(zones@[b as int])
                    &&& forall|j: int|
                        0 <= j < i && #[trigger] zone_matches(zones@[j], hostname@) ==> zone_len(
                            zones@[j],
                        ) <= best_len && (j < b ==> zone_len(zones@[j]) < best_len)
                },
                None => forall|j: int| 0 <= j < i ==> !zone_matches(#[trigger] zones@[j], hostname@),
            },
        decreases zones@.len() - i,
    {
        let zone = &zones[i];
        if ends_with_trimmed(hostname, zone.name.as_str()) {
            let len = trimmed_len(zone.name.as_str());
            match best {
                Some(_) => {
                    if len > best_len {
                        best = Some(i);
                        best_len = len;
                    }
                },
                None => {
                    best = Some(i);
                    best_len = len;
                },
            }
        }
        i = i + 1;
    }
    proof {
        match best {
            Some(b) => {
                assert(is_owning_zone(zones@, hostname@, b as int));
                let c = choose|c: int| is_owning_zone(zones@, hostname@, c);
                lemma_owning_zone_unique(zones@, hostname@, b as int, c);
            },
            None => {},
        }
    }
    best
}

/// The changes of `changes` whose record set name resolves to zone id `id`
/// (to no zone, for `None`), in their order.
pub open spec fn changes_for_zone(
    zones: Seq<HostedZone>,
    changes: Seq<ChangeView>,
    id: Option<Seq<char>>,
) -> Seq<ChangeView>
    decreases changes.len(),
{
    if changes.len() == 0 {
        seq![]
    } else {
        let rest = changes_for_zone(zones, changes.drop_last(), id);
        if owning_zone_id(zones, changes.last().record_set.name) == id {
            rest.push(changes.last())
        } else {
            rest
        }
    }
}

proof fn lemma_changes_for_zone_push(
    zones: Seq<HostedZone>,
    changes: Seq<ChangeView>,
    c: ChangeView,
    id: Option<Seq<char>>,
)
    ensures
        changes_for_zone(zones, changes.push(c), id) == if owning_zone_id(
            zones,
            c.record_set.name,
        ) == id {
            changes_for_zone(zones, changes, id).push(c)
        } else {
            changes_for_zone(zones, changes, id)
        },
{
    assert(changes.push(c).drop_last() =~= changes);
}

proof fn lemma_changes_for_zone_empty(
    zones: Seq<HostedZone>,
    changes: Seq<ChangeView>,
    id: Option<Seq<char>>,
)
    requires
        forall|k: int|
            0 <= k < changes.len() ==> owning_zone_id(zones, #[trigger] changes[k].record_set.name)
                != id,
    ensures
        changes_for_zone(zones, changes, id) == Seq::<ChangeView>::empty(),
    decreases changes.len(),
{
    if changes.len() > 0 {
        lemma_changes_for_zone_empty(zones, changes.drop_last(), id);
    }
}

/// The changes of one zone, submitted together.
#[derive(Debug)]
pub struct ChangeBatch {
    pub zone_id: String,
    pub changes: Vec<Change>,
}

/// Groups `changes` by the zone that owns each one's record set name: one
/// batch per zone id, each with that zone's changes in their order, and the
/// changes that no zone owns, in their order.
pub fn batch_changes(zones: &[HostedZone], changes: Vec<Change>) -> (r: (
    Vec<ChangeBatch>,
    Vec<Change>,
))
    ensures
        change_views(r.1@) == changes_for_zone(zones@, change_views(changes@), None),
        forall|b: int|
            0 <= b < r.0@.len() ==> change_views((#[trigger] r.0@[b]).changes@) == changes_for_zone(
                zones@,
                change_views(changes@),
                Some(r.0@[b].zone_id@),
            ) && r.0@[b].changes@.len() > 0,
        forall|b1: int, b2: int|
            0 <= b1 < r.0@.len() && 0 <= b2 < r.0@.len() && b1 != b2 ==> (#[trigger] r.0@[b1]).zone_id@
                != (#[trigger] r.0@[b2]).zone_id@,
        forall|k: int|
            0 <= k < changes@.len() ==> (owning_zone_id(zones@, #[trigger] changes@[k]@.record_set.name)
                matches Some(id) ==> exists|b: int| 0 <= b < r.0@.len() && r.0@[b].zone_id@ == id),
{
    let ghost all = change_views(changes@);
    let ghost given = changes@;
    let mut rest = changes;
    let mut batches: Vec<ChangeBatch> = Vec::new();
    let mut unresolved: Vec<Change> = Vec::new();
    let ghost mut i: int = 0;
    while rest.len() > 0
        invariant
            0 <= i <= all.len(),
            change_views(rest@) == all.subrange(i, all.len() as int),
            change_views(unresolved@) == changes_for_zone(zones@, all.subrange(0, i), None),
            forall|b: int|
                0 <= b < batches@.len() ==> change_views((#[trigger] batches@[b]).changes@)
                    == changes_for_zone(zones@, all.subrange(0, i), Some(batches@[b].zone_id@))
                    && batches@[b].changes@.len() > 0,
            forall|b1: int, b2: int|
                0 <= b1 < batches@.len() && 0 <= b2 < batches@.len() && b1 != b2 ==> (
                #[trigger] batches@[b1]).zone_id@ != (#[trigger] batches@[b2]).zone_id@,
            forall|k: int|
                0 <= k < i ==> (owning_zone_id(zones@, #[trigger] all[k].record_set.name) matches Some(
                    id,
                ) ==> exists|b: int| 0 <= b < batches@.len() && batches@[b].zone_id@ == id),
        decreases rest@.len(),
    {
        let ghost prefix = all.subrange(0, i);
        proof {
            assert(change_views(rest@).len() == rest@.len());
            assert(change_views(rest@)[0] == rest@[0]@);
            assert(all.subrange(i, all.len() as int)[0] == all[i]);
        }
        let ghost old_rest = rest@;
        let c = rest.remove(0);
        let ghost cv = c@;
        proof {
            assert(cv == all[i]);
            assert(all.subrange(0, i + 1) =~= prefix.push(cv));
            assert(rest@ =~= old_rest.subrange(1, old_rest.len() as int));
            assert forall|j: int| 0 <= j < rest@.len() implies change_views(rest@)[j] == all[i + 1
                + j] by {
                assert(change_views(old_rest)[j + 1] == all.subrange(i, all.len() as int)[j + 1]);
            }
            assert(change_views(rest@) =~= all.subrange(i + 1, all.len() as int));
        }
        match resolve_zone(zones, c.record_set.name.as_str()) {
            None => {
                let ghost before = unresolved@;
                unresolved.push(c);
                proof {
                    assert(change_views(unresolved@) =~= change_views(before).push(cv));
                    lemma_changes_for_zone_push(zones@, prefix, cv, None);
                    assert forall|b: int| 0 <= b < batches@.len() implies change_views(
                        (#[trigger] batches@[b]).changes@,
                    ) == changes_for_zone(zones@, prefix.push(cv), Some(batches@[b].zone_id@)) by {
                        lemma_changes_for_zone_push(zones@, prefix, cv, Some(batches@[b].zone_id@));
                    }
                }
            },
            Some(z) => {
                let id = &zones[z].id;
                let mut k: usize = 0;
                while k < batches.len() && batches[k].zone_id != *id
                    invariant
                        k <= batches@.len(),
                        forall|m: int| 0 <= m < k ==> batches@[m].zone_id@ != id@,
                    decreases batches@.len() - k,
                {
                    k = k + 1;
                }
                let ghost old_batches = batches@;
                proof {
                    assert(owning_zone_id(zones@, cv.record_set.name) == Some(id@));
                    lemma_changes_for_zone_push(zones@, prefix, cv, None);
                }
                if k < batches.len() {
                    let mut batch = batches.remove(k);
                    let ghost before = batch.changes@;
                    batch.changes.push(c);
                    proof {
                        assert(change_views(batch.changes@) =~= change_views(before).push(cv));
                        lemma_changes_for_zone_push(zones@, prefix, cv, Some(id@));
                    }
                    batches.insert(k, batch);
                    proof {
                        assert(batches@ =~= old_batches.update(k as int, batch));
                        assert forall|b: int| 0 <= b < batches@.len() implies change_views(
                            (#[trigger] batches@[b]).changes@,
                        ) == changes_for_zone(zones@, prefix.push(cv), Some(batches@[b].zone_id@))
                            && batches@[b].changes@.len() > 0 by {
                            lemma_changes_for_zone_push(
                                zones@,
                                prefix,
                                cv,
                                Some(batches@[b].zone_id@),
                            );
                            if b != k {
                                assert(old_batches[b].zone_id@ != old_batches[k as int].zone_id@);
                            }
                        }
                        assert forall|kk: int| 0 <= kk < i + 1 implies (owning_zone_id(
                            zones@,
                            #[trigger] all[kk].record_set.name,
                        ) matches Some(idd) ==> exists|b: int|
                            0 <= b < batches@.len() && batches@[b].zone_id@ == idd) by {
                            if kk < i {
                                if let Some(idd) = owning_zone_id(zones@, all[kk].record_set.name) {
                                    let b = choose|b: int|
                                        0 <= b < old_batches.len() && old_batches[b].zone_id@ == idd;
                                    assert(batches@[b].zone_id@ == idd);
                                }
                            } else {
                                assert(batches@[k as int].zone_id@ == id@);
                            }
                        }
                    }
                } else {
                    let mut fresh: Vec<Change> = Vec::new();
                    fresh.push(c);
                    let batch = ChangeBatch { zone_id: copy_string(id), changes: fresh };
                    proof {
                        assert forall|kk: int| 0 <= kk < prefix.len() implies owning_zone_id(
                            zones@,
                            #[trigger] prefix[kk].record_set.name,
                        ) != Some(id@) by {
                            assert(prefix[kk] == all[kk]);
                            if owning_zone_id(zones@, prefix[kk].record_set.name) == Some(id@) {
                                let b = choose|b: int|
                                    0 <= b < old_batches.len() && old_batches[b].zone_id@ == id@;
                                assert(old_batches[b].zone_id@ != id@);
                            }
                        }
                        lemma_changes_for_zone_empty(zones@, prefix, Some(id@));
                        lemma_changes_for_zone_push(zones@, prefix, cv, Some(id@));
                        assert(change_views(batch.changes@) =~= seq![cv]);
                    }
                    batches.push(batch);
                    proof {
                        assert(batches@ =~= old_batches.push(batch));
                        assert forall|b: int| 0 <= b < batches@.len() implies change_views(
                            (#[trigger] batches@[b]).changes@,
                        ) == changes_for_zone(zones@, prefix.push(cv), Some(batches@[b].zone_id@))
                            && batches@[b].changes@.len() > 0 by {
                            lemma_changes_for_zone_push(
                                zones@,
                                prefix,
                                cv,
                                Some(batches@[b].zone_id@),
                            );
                        }
                        assert forall|kk: int| 0 <= kk < i + 1 implies (owning_zone_id(
                            zones@,
                            #[trigger] all[kk].record_set.name,
                        ) matches Some(idd) ==> exists|b: int|
                            0 <= b < batches@.len() && batches@[b].zone_id@ == idd) by {
                            if kk < i {
                                if let Some(idd) = owning_zone_id(zones@, all[kk].record_set.name) {
                                    let b = choose|b: int|
                                        0 <= b < old_batches.len() && old_batches[b].zone_id@ == idd;
                                    assert(batches@[b].zone_id@ == idd);
                                }
                            } else {
                                assert(batches@[old_batches.len() as int].zone_id@ == id@);
                            }
                        }
                    }
                }
            },
        }
        proof {
            i = i + 1;
        }
    }
    proof {
        assert(all.subrange(0, i) =~= all);
        assert forall|k: int| 0 <= k < given.len() implies all[k] == (#[trigger] given[k])@ by {}
    }
    (batches, unresolved)
}

pub open spec fn option_string_view(o: Option<String>) -> Option<Seq<char>> {
    match o {
        Some(s) => Some(s@),
        None => None,
    }
}

fn copy_option_string(o: &Option<String>) -> (r: Option<String>)
    ensures
        option_string_view(r) == option_string_view(*o),
{
    match o {
        Some(s) => Some(copy_string(s)),
        None => None,
    }
}

/// A request for one page of a zone's record sets, starting at
/// `start_record_name` (at the start of the zone when `None`).
#[derive(Debug)]
pub struct ListRequest {
    pub zone_id: String,
    pub start_record_name: Option<String>,
}

/// One page of a zone's record sets and where the next page starts.
#[derive(Debug)]
pub struct RecordPage {
    pub record_sets: Vec<ResourceRecordSet>,
    pub is_truncated: bool,
    pub next_record_name: Option<String>,
}

pub struct RecordListingView {
    pub zone_ids: Seq<Seq<char>>,
    pub zone: int,
    pub cursor: Option<Seq<char>>,
    pub records: Seq<RecordSetView>,
}

/// Lists the record sets of every zone, zone after zone, following each
/// zone's continuation cursor until its listing is no longer truncated.
#[derive(Debug)]
pub struct RecordListing {
    zone_ids: Vec<String>,
    zone: usize,
    cursor: Option<String>,
    records: Vec<ResourceRecordSet>,
}

impl View for RecordListing {
    type V = RecordListingView;

    closed spec fn view(&self) -> RecordListingView {
        RecordListingView {
            zone_ids: string_views(self.zone_ids@),
            zone: self.zone as int,
            cursor: option_string_view(self.cursor),
            records: record_set_views(self.records@),
        }
    }
}

pub open spec fn zone_ids(zones: Seq<HostedZone>) -> Seq<Seq<char>> {
    zones.map_values(|z: HostedZone| z.id@)
}

impl RecordListing {
    /// A listing of `zones`, at the start of the first zone, with nothing read.
    pub fn new(zones: &[HostedZone]) -> (r: RecordListing)
        ensures
            r@ == (RecordListingView {
                zone_ids: zone_ids(zones@),
                zone: 0,
                cursor: None,
                records: Seq::empty(),
            }),
    {
        let mut ids: Vec<String> = Vec::new();
        let mut i: usize = 0;
        while i < zones.len()
            invariant
                i <= zones@.len(),
                string_views(ids@) == zone_ids(zones@.subrange(0, i as int)),
            decreases zones@.len() - i,
        {
            let ghost before = ids@;
            ids.push(copy_string(&zones[i].id));
            proof {
                assert(string_views(ids@) =~= string_views(before).push(zones@[i as int].id@));
                assert(zone_ids(zones@.subrange(0, i + 1)) =~= zone_ids(
                    zones@.subrange(0, i as int),
                ).push(zones@[i as int].id@));
            }
            i = i + 1;
        }
        proof {
            assert(zones@.subrange(0, zones@.len() as int) =~= zones@);
        }
        let r = RecordListing { zone_ids: ids, zone: 0, cursor: None, records: Vec::new() };
        assert(r@.records =~= Seq::<RecordSetView>::empty());
        r
    }

    /// The next page to ask for; `None` once every zone has been read.
    pub fn next_request(&self) -> (r: Option<ListRequest>)
        ensures
            match r {
                Some(q) => {
                    &&& 0 <= self@.zone < self@.zone_ids.len()
                    &&& q.zone_id@ == self@.zone_ids[self@.zone]
                    &&& option_string_view(q.start_record_name) == self@.cursor
                },
                None => self@.zone >= self@.zone_ids.len(),
            },
    {
        if self.zone < self.zone_ids.len() {
            Some(
                ListRequest {
                    zone_id: copy_string(&self.zone_ids[self.zone]),
                    start_record_name: copy_option_string(&self.cursor),
                },
            )
        } else {
            None
        }
    }

    /// Takes in the page that answers the current request: its record sets
    /// are added after those read so far; a truncated page moves the cursor
    /// to where the next page starts, as given, and a complete one moves on
    /// to the start of the next zone. Once every zone is read nothing changes.
    pub fn receive(&mut self, page: RecordPage)
        ensures
            old(self)@.zone >= old(self)@.zone_ids.len() ==> final(self)@ == old(self)@,
            old(self)@.zone < old(self)@.zone_ids.len() ==> {
                &&& final(self)@.zone_ids == old(self)@.zone_ids
                &&& final(self)@.records == old(self)@.records + record_set_views(
                    page.record_sets@,
                )
                &&& page.is_truncated ==> final(self)@.zone == old(self)@.zone
                    && final(self)@.cursor == option_string_view(page.next_record_name)
                &&& !page.is_truncated ==> final(self)@.zone == old(self)@.zone + 1
                    && final(self)@.cursor is None
            },
    {
        if self.zone >= self.zone_ids.len() {
            return;
        }
        let RecordPage { mut record_sets, is_truncated, next_record_name } = page;
        let ghost before = self.records@;
        let ghost added = record_sets@;
        self.records.append(&mut record_sets);
        assert(record_set_views(self.records@) =~= record_set_views(before) + record_set_views(
            added,
        ));
        if is_truncated {
            self.cursor = next_record_name;
        } else {
            self.zone = self.zone + 1;
            self.cursor = None;
        }
    }

    /// Every record set read, zone after zone, in the order they came.
    pub fn into_records(self) -> (r: Vec<ResourceRecordSet>)
        ensures
            record_set_views(r@) == self@.records,
    {
        self.records
    }
}

/// A request for one page of the hosted zones, starting after `marker`
/// (at the first zone when `None`).
#[derive(Debug)]
pub struct ZoneRequest {
    pub marker: Option<String>,
}

pub struct ZoneListingView {
    pub zones: Seq<HostedZone>,
    pub marker: Option<Seq<char>>,
    pub done: bool,
}

/// Lists every hosted zone, page after page, until a page is not truncated.
#[derive(Debug)]
pub struct ZoneListing {
    zones: Vec<HostedZone>,
    marker: Option<String>,
    done: bool,
}

impl View for ZoneListing {
    type V = ZoneListingView;

    closed spec fn view(&self) -> ZoneListingView {
        ZoneListingView {
            zones: self.zones@,
            marker: option_string_view(self.marker),
            done: self.done,
        }
    }
}

impl ZoneListing {
    /// A listing with nothing read, at the first zone.
    pub fn new() -> (r: ZoneListing)
        ensures
            r@ == (ZoneListingView { zones: Seq::empty(), marker: None, done: false }),
    {
        ZoneListing { zones: Vec::new(), marker: None, done: false }
    }

    /// The next page to ask for; `None` once the listing is complete.
    pub fn next_request(&self) -> (r: Option<ZoneRequest>)
        ensures
            r is None <==> self@.done,
            r matches Some(q) ==> option_string_view(q.marker) == self@.marker,
    {
        if self.done {
            None
        } else {
            Some(ZoneRequest { marker: copy_option_string(&self.marker) })
        }
    }

    /// Takes in a page of zones: they are added after those read so far. A
    /// truncated page with a marker moves on to that marker; any other page
    /// completes the listing. Once complete nothing changes.
    pub fn receive(&mut self, zones: Vec<HostedZone>, is_truncated: bool, next_marker: Option<String>)
        ensures
            old(self)@.done ==> final(self)@ == old(self)@,
            !old(self)@.done ==> {
                &&& final(self)@.zones == old(self)@.zones + zones@
                &&& final(self)@.done == !(is_truncated && next_marker is Some)
                &&& !final(self)@.done ==> final(self)@.marker == option_string_view(next_marker)
            },
    {
        if self.done {
            return;
        }
        let mut zones = zones;
        self.zones.append(&mut zones);
        match next_marker {
            Some(m) => {
                if is_truncated {
                    self.marker = Some(m);
                } else {
                    self.done = true;
                }
            },
            None => {
                self.done = true;
            },
        }
    }

    /// Every zone read, in the order they came.
    pub fn into_zones(self) -> (r: Vec<HostedZone>)
        ensures
            r@ == self@.zones,
    {
        self.zones
    }
}

/// `i` is the first position of `s` whose record set has name `name` and
/// type `rr_type`.
pub open spec fn is_first_keyed(s: Seq<RecordSetView>, name: Seq<char>, rr_type: Seq<char>, i: int) -> bool {
    &&& 0 <= i < s.len()
    &&& s[i].name == name
    &&& s[i].rr_type == rr_type
    &&& forall|j: int| 0 <= j < i ==> !(s[j].name == name && s[j].rr_type == rr_type)
}

/// The record sets of a zone once the provider has applied `c` to `s`: an
/// upsert replaces the record set of the same name and type, or adds it at
/// the end when there is none; a delete removes that record set.
pub open spec fn apply_change(s: Seq<RecordSetView>, c: ChangeView) -> Seq<RecordSetView> {
    let name = c.record_set.name;
    let rr_type = c.record_set.rr_type;
    if exists|i: int| is_first_keyed(s, name, rr_type, i) {
        let i = choose|i: int| is_first_keyed(s, name, rr_type, i);
        match c.action {
            ChangeAction::Upsert => s.update(i, c.record_set),
            ChangeAction::Delete => s.remove(i),
        }
    } else {
        match c.action {
            ChangeAction::Upsert => s.push(c.record_set),
            ChangeAction::Delete => s,
        }
    }
}

/// The record sets once every change of `cs` has been applied, in order.
pub open spec fn apply_changes(s: Seq<RecordSetView>, cs: Seq<ChangeView>) -> Seq<RecordSetView>
    decreases cs.len(),
{
    if cs.len() == 0 {
        s
    } else {
        apply_change(apply_changes(s, cs.drop_last()), cs.last())
    }
}

pub proof fn lemma_holds_value_intro(s: Seq<RecordSetView>, name: Seq<char>, value: Seq<char>, i: int)
    requires
        is_first_named(s, name, i),
        s[i].values.contains(value),
    ensures
        holds_value(s, name, value),
{
    reveal(holds_value);
}

pub proof fn lemma_holds_value_witness(s: Seq<RecordSetView>, name: Seq<char>, value: Seq<char>) -> (i: int)
    requires
        holds_value(s, name, value),
    ensures
        is_first_named(s, name, i),
        s[i].values.contains(value),
{
    reveal(holds_value);
    choose|i: int| is_first_named(s, name, i) && s[i].values.contains(value)
}

} // verus!
