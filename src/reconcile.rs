use vstd::prelude::*;

use crate::discovery::{all_records, discover_services, records_or_empty};
use crate::kubernetes::{
    derive_records, map_to_records, service_record_views, Service, ServiceRecord,
    ServiceRecordView,
};
use crate::route53::{
    apply_change, apply_changes, change_views, holds_value, is_first_keyed, is_first_named,
    lemma_holds_value_intro, lemma_holds_value_witness,
    record_set_views, srv_type, Change, ChangeAction, ChangeView, RecordSetView, ResourceRecordSet,
};

verus! {

/// The changes that bring `existing` to hold each of `desired`, in order.
pub open spec fn reconcile_all(desired: Seq<ServiceRecordView>, existing: Seq<RecordSetView>) -> Seq<
    ChangeView,
>
    decreases desired.len(),
{
    if desired.len() == 0 {
        seq![]
    } else {
        let rest = reconcile_all(desired.drop_last(), existing);
        match desired.last().reconcile(existing) {
            Some(c) => rest.push(c),
            None => rest,
        }
    }
}

/// One delete change per record, in order.
pub open spec fn delete_all(desired: Seq<ServiceRecordView>) -> Seq<ChangeView> {
    desired.map_values(|d: ServiceRecordView| d.delete())
}

/// The changes that bring `existing_records` to hold each of `records`, in order.
pub fn reconcile_records(records: &[ServiceRecord], existing_records: &[ResourceRecordSet]) -> (r:
    Vec<Change>)
    ensures
        change_views(r@) == reconcile_all(
            service_record_views(records@),
            record_set_views(existing_records@),
        ),
{
    let ghost desired = service_record_views(records@);
    let ghost existing = record_set_views(existing_records@);
    let mut out: Vec<Change> = Vec::new();
    let mut i: usize = 0;
    while i < records.len()
        invariant
            i <= records@.len(),
            desired == service_record_views(records@),
            existing == record_set_views(existing_records@),
            change_views(out@) == reconcile_all(desired.subrange(0, i as int), existing),
        decreases records@.len() - i,
    {
        proof {
            assert(desired.subrange(0, i + 1).drop_last() =~= desired.subrange(0, i as int));
        }
        let ghost before = out@;
        match records[i].reconcile_with(existing_records) {
            Some(c) => {
                let ghost cv = c@;
                out.push(c);
                assert(change_views(out@) =~= change_views(before).push(cv));
            },
            None => {},
        }
        i = i + 1;
    }
    proof {
        assert(desired.subrange(0, records@.len() as int) =~= desired);
    }
    out
}

/// One delete change per record, in order, whatever the provider holds.
pub fn delete_records(records: &[ServiceRecord]) -> (r: Vec<Change>)
    ensures
        change_views(r@) == delete_all(service_record_views(records@)),
{
    let mut out: Vec<Change> = Vec::new();
    let mut i: usize = 0;
    while i < records.len()
        invariant
            i <= records@.len(),
            change_views(out@) == delete_all(service_record_views(records@.subrange(0, i as int))),
        decreases records@.len() - i,
    {
        let ghost before = out@;
        let c = records[i].as_delete();
        let ghost cv = c@;
        out.push(c);
        proof {
            assert(change_views(out@) =~= change_views(before).push(cv));
            assert(delete_all(service_record_views(records@.subrange(0, i + 1))) =~= delete_all(
                service_record_views(records@.subrange(0, i as int)),
            ).push(cv));
        }
        i = i + 1;
    }
    proof {
        assert(records@.subrange(0, records@.len() as int) =~= records@);
    }
    out
}

/// A notification from the service watch.
#[derive(Debug)]
pub enum Event {
    /// A service was added or changed; it holds the new definition.
    Applied(Service),
    /// A service was removed; it holds the last known definition.
    Deleted(Service),
    /// The watch started over; it holds every service it listed.
    Restarted(Vec<Service>),
}

/// The changes one event asks for against `existing`.
pub open spec fn step_changes(event: Event, existing: Seq<RecordSetView>) -> Seq<ChangeView> {
    match event {
        Event::Applied(service) => reconcile_all(
            records_or_empty(derive_records(service)),
            existing,
        ),
        Event::Deleted(service) => delete_all(records_or_empty(derive_records(service))),
        Event::Restarted(_) => seq![],
    }
}

/// The changes that `event` asks for: for a changed service, those that
/// make `existing_records` hold its records; for a removed one, a delete of
/// each record it asked for, whatever `existing_records` holds; for a
/// restarted watch, none.
pub fn calculate_reconciliation_step(event: &Event, existing_records: &[ResourceRecordSet]) -> (r:
    Vec<Change>)
    ensures
        change_views(r@) == step_changes(*event, record_set_views(existing_records@)),
{
    match event {
        Event::Applied(service) => match map_to_records(service) {
            Some(records) => reconcile_records(records.as_slice(), existing_records),
            None => Vec::new(),
        },
        Event::Deleted(service) => match map_to_records(service) {
            Some(records) => delete_records(records.as_slice()),
            None => Vec::new(),
        },
        Event::Restarted(_) => {
            let r: Vec<Change> = Vec::new();
            assert(change_views(r@) =~= seq![]);
            r
        },
    }
}

/// The changes of a full pass: those that make `existing_records` hold the
/// records of all of `services`, in order.
pub fn initial_sync_changes(services: &[Service], existing_records: &[ResourceRecordSet]) -> (r:
    Vec<Change>)
    ensures
        change_views(r@) == reconcile_all(
            all_records(services@),
            record_set_views(existing_records@),
        ),
{
    let records = discover_services(services);
    reconcile_records(records.as_slice(), existing_records)
}

/// Where the watch loop stands.
#[derive(Clone, Copy, Debug, PartialEq, Eq, Structural)]
pub enum Phase {
    /// Not started.
    Init,
    /// The full pass over every service is under way.
    InitialSync,
    /// Waiting for the next notification.
    Watching,
    /// Stopped for good.
    Shutdown,
}

/// What happened since the last step of the loop.
#[derive(Debug)]
pub enum Input {
    /// The loop is started.
    Start,
    /// The full pass has ended.
    SyncDone,
    /// The watch delivered a notification.
    Notified(Event),
    /// The watch ended.
    StreamEnded,
    /// The watch failed.
    StreamFailed,
    /// A quit, terminate or interrupt signal came in.
    Terminated,
}

/// What the loop is to do next.
#[derive(Debug)]
pub enum Action {
    /// Run a full pass over every service against freshly listed record sets.
    FullSync,
    /// List the record sets afresh and apply the changes this event asks for.
    Reconcile(Event),
    /// Nothing to do; wait for the next input.
    Wait,
    /// Stop without undoing what was applied.
    Exit,
}

/// The next phase and action of the loop.
pub open spec fn next_step(phase: Phase, input: Input) -> (Phase, Action) {
    match input {
        Input::StreamEnded | Input::StreamFailed | Input::Terminated => (Phase::Shutdown, Action::Exit),
        Input::Start => match phase {
            Phase::Init => (Phase::InitialSync, Action::FullSync),
            Phase::Shutdown => (Phase::Shutdown, Action::Exit),
            _ => (phase, Action::Wait),
        },
        Input::SyncDone => match phase {
            Phase::InitialSync => (Phase::Watching, Action::Wait),
            Phase::Shutdown => (Phase::Shutdown, Action::Exit),
            _ => (phase, Action::Wait),
        },
        Input::Notified(event) => match phase {
            Phase::Watching => match event {
                Event::Restarted(_) => (Phase::Watching, Action::Wait),
                _ => (Phase::Watching, Action::Reconcile(event)),
            },
            Phase::Shutdown => (Phase::Shutdown, Action::Exit),
            _ => (phase, Action::Wait),
        },
    }
}

/// One step of the watch loop. A start runs the full pass; once it has
/// ended, each changed or removed service is reconciled on its own, and a
/// restart of the watch is let pass. The end or failure of the watch, or a
/// signal, stops the loop from any phase; once stopped it stays stopped.
/// Inputs that do not fit the phase change nothing.
pub fn step(phase: Phase, input: Input) -> (r: (Phase, Action))
    ensures
        r == next_step(phase, input),
{
    match input {
        Input::StreamEnded | Input::StreamFailed | Input::Terminated => (Phase::Shutdown, Action::Exit),
        Input::Start => match phase {
            Phase::Init => (Phase::InitialSync, Action::FullSync),
            Phase::Shutdown => (Phase::Shutdown, Action::Exit),
            _ => (phase, Action::Wait),
        },
        Input::SyncDone => match phase {
            Phase::InitialSync => (Phase::Watching, Action::Wait),
            Phase::Shutdown => (Phase::Shutdown, Action::Exit),
            _ => (phase, Action::Wait),
        },
        Input::Notified(event) => match phase {
            Phase::Watching => match event {
                Event::Restarted(_) => (Phase::Watching, Action::Wait),
                _ => (Phase::Watching, Action::Reconcile(event)),
            },
            Phase::Shutdown => (Phase::Shutdown, Action::Exit),
            _ => (phase, Action::Wait),
        },
    }
}

/// `existing` does not yet hold the desired record `d`.
pub open spec fn upsert_needed(d: ServiceRecordView, existing: Seq<RecordSetView>) -> bool {
    !holds_value(existing, d.record_name(), d.record_value())
}

/// Every change of `reconcile_all(desired, existing)` is the upsert of a
/// desired record that `existing` does not hold.
#[verifier::spinoff_prover]
proof fn lemma_reconcile_all_sources(desired: Seq<ServiceRecordView>, existing: Seq<RecordSetView>, j: int) -> (k: int)
    requires
        0 <= j < reconcile_all(desired, existing).len(),
    ensures
        0 <= k < desired.len(),
        reconcile_all(desired, existing)[j] == desired[k].upsert(),
        upsert_needed(desired[k], existing),
    decreases desired.len(),
{
    let init = desired.drop_last();
    let rest = reconcile_all(init, existing);
    if j < rest.len() {
        let k = lemma_reconcile_all_sources(init, existing, j);
        assert(desired[k] == init[k]);
        k
    } else {
        (desired.len() - 1) as int
    }
}

/// Every desired record that `existing` does not hold has its upsert among
/// the changes of `reconcile_all(desired, existing)`.
#[verifier::spinoff_prover]
proof fn lemma_reconcile_all_covers(desired: Seq<ServiceRecordView>, existing: Seq<RecordSetView>, k: int) -> (j: int)
    requires
        0 <= k < desired.len(),
        upsert_needed(desired[k], existing),
    ensures
        0 <= j < reconcile_all(desired, existing).len(),
        reconcile_all(desired, existing)[j] == desired[k].upsert(),
    decreases desired.len(),
{
    let init = desired.drop_last();
    let rest = reconcile_all(init, existing);
    if k < init.len() {
        assert(init[k] == desired[k]);
        lemma_reconcile_all_covers(init, existing, k)
    } else {
        rest.len() as int
    }
}

proof fn lemma_reconcile_all_empty(desired: Seq<ServiceRecordView>, existing: Seq<RecordSetView>)
    requires
        forall|k: int|
            0 <= k < desired.len() ==> holds_value(
                existing,
                #[trigger] desired[k].record_name(),
                desired[k].record_value(),
            ),
    ensures
        reconcile_all(desired, existing) == Seq::<ChangeView>::empty(),
    decreases desired.len(),
{
    if desired.len() > 0 {
        let init = desired.drop_last();
        assert forall|k: int| 0 <= k < init.len() implies holds_value(
            existing,
            #[trigger] init[k].record_name(),
            init[k].record_value(),
        ) by {
            assert(init[k] == desired[k]);
        }
        lemma_reconcile_all_empty(init, existing);
        assert(desired[desired.len() - 1] == desired.last());
    }
}

proof fn lemma_first_named_exists(s: Seq<RecordSetView>, name: Seq<char>, i: int)
    requires
        0 <= i < s.len(),
        s[i].name == name,
    ensures
        exists|f: int| is_first_named(s, name, f),
    decreases i,
{
    if exists|j: int| 0 <= j < i && s[j].name == name {
        let j = choose|j: int| 0 <= j < i && s[j].name == name;
        lemma_first_named_exists(s, name, j);
    } else {
        assert(is_first_named(s, name, i));
    }
}

/// Some change of `cs` is for a record set named `name`.
spec fn is_change_name(cs: Seq<ChangeView>, name: Seq<char>) -> bool {
    exists|j: int| 0 <= j < cs.len() && cs[j].record_set.name == name
}

/// What holds of the record sets `s` once the first `m` changes of `cs` have
/// been applied to `existing`.
spec fn converging(
    desired: Seq<ServiceRecordView>,
    existing: Seq<RecordSetView>,
    cs: Seq<ChangeView>,
    s: Seq<RecordSetView>,
    m: int,
) -> bool {
    &&& s.len() >= existing.len()
    &&& forall|i: int| 0 <= i < existing.len() ==> #[trigger] s[i].name == existing[i].name
    &&& forall|i: int|
        0 <= i < s.len() && !is_change_name(cs, #[trigger] s[i].name) ==> i < existing.len() && s[i]
            == existing[i]
    &&& forall|j: int|
        0 <= j < m ==> holds_value(
            s,
            #[trigger] cs[j].record_set.name,
            cs[j].record_set.values[0],
        )
    &&& forall|k: int, i: int|
        0 <= k < desired.len() && #[trigger] is_first_named(s, desired[k].record_name(), i)
            ==> s[i].rr_type == srv_type()
}

/// Records of the same name ask for the same value.
pub open spec fn names_agree(desired: Seq<ServiceRecordView>) -> bool {
    forall|a: int, b: int|
        0 <= a < desired.len() && 0 <= b < desired.len() && #[trigger] desired[a].record_name()
            == #[trigger] desired[b].record_name() ==> desired[a].record_value()
            == desired[b].record_value()
}

/// The first record set under each desired record's name, where there is
/// one, is an SRV record set.
pub open spec fn first_named_are_srv(desired: Seq<ServiceRecordView>, existing: Seq<RecordSetView>) -> bool {
    forall|k: int, i: int|
        0 <= k < desired.len() && #[trigger] is_first_named(existing, desired[k].record_name(), i)
            ==> existing[i].rr_type == srv_type()
}

#[verifier::spinoff_prover]
proof fn lemma_converging(desired: Seq<ServiceRecordView>, existing: Seq<RecordSetView>, m: int)
    requires
        names_agree(desired),
        first_named_are_srv(desired, existing),
        0 <= m <= reconcile_all(desired, existing).len(),
    ensures
        converging(
            desired,
            existing,
            reconcile_all(desired, existing),
            apply_changes(existing, reconcile_all(desired, existing).subrange(0, m)),
            m,
        ),
    decreases m,
{
    let cs = reconcile_all(desired, existing);
    if m == 0 {
        assert(cs.subrange(0, 0) =~= Seq::<ChangeView>::empty());
    } else {
        lemma_converging(desired, existing, m - 1);
        let s = apply_changes(existing, cs.subrange(0, m - 1));
        assert(cs.subrange(0, m).drop_last() =~= cs.subrange(0, m - 1));
        let c = cs[m - 1];
        assert(cs.subrange(0, m).last() == c);
        let t = apply_change(s, c);
        assert(t == apply_changes(existing, cs.subrange(0, m)));
        let k = lemma_reconcile_all_sources(desired, existing, m - 1);
        let d = desired[k];
        let name = d.record_name();
        let value = d.record_value();
        assert(c.record_set == d.record_set());
        assert(c.action == ChangeAction::Upsert);
        assert(c.record_set.values[0] == value);
        // where the change lands: the first record set of its name, or the end
        let pos: int = if exists|f: int| is_first_named(s, name, f) {
            let f = choose|f: int| is_first_named(s, name, f);
            assert(s[f].rr_type == srv_type());
            assert(is_first_keyed(s, name, srv_type(), f));
            let i = choose|i: int| is_first_keyed(s, name, srv_type(), i);
            assert(i == f) by {
                if i < f {
                    assert(s[i].name == name);
                } else if f < i {
                    assert(!(s[f].name == name && s[f].rr_type == srv_type()));
                }
            }
            assert(t == s.update(f, d.record_set()));
            f
        } else {
            assert forall|i: int| !is_first_keyed(s, name, srv_type(), i) by {
                if is_first_keyed(s, name, srv_type(), i) {
                    lemma_first_named_exists(s, name, i);
                }
            }
            assert(t == s.push(d.record_set()));
            s.len() as int
        };
        assert(t.len() >= s.len());
        assert(is_change_name(cs, name));
        assert(t[pos] == d.record_set());
        assert forall|i: int| 0 <= i < s.len() && i != pos implies #[trigger] t[i] == s[i] by {}
        assert forall|i: int| 0 <= i < s.len() implies #[trigger] t[i].name == s[i].name by {}
        assert(t.len() == s.len() || (t.len() == s.len() + 1 && pos == s.len()));
        assert(is_first_named(t, name, pos)) by {
            assert forall|j: int| 0 <= j < pos implies t[j].name != name by {
                assert(t[j].name == s[j].name);
                if s[j].name == name {
                    lemma_first_named_exists(s, name, j);
                }
            }
        }
        assert(t[pos].values[0] == value);
        lemma_holds_value_intro(t, name, value, pos);
        // other names keep their first record set
        assert forall|n: Seq<char>, i: int| n != name && is_first_named(s, n, i) implies is_first_named(
            t,
            n,
            i,
        ) && t[i] == s[i] by {}
        assert forall|n: Seq<char>, i: int| n != name && is_first_named(t, n, i) implies is_first_named(
            s,
            n,
            i,
        ) && t[i] == s[i] by {
            assert(i != pos);
            assert(i < s.len());
            assert(t[i] == s[i]);
            assert forall|j: int| 0 <= j < i implies s[j].name != n by {
                assert(t[j].name == s[j].name);
            }
        }
        assert forall|i: int| 0 <= i < existing.len() implies #[trigger] t[i].name
            == existing[i].name by {
            assert(s[i].name == existing[i].name);
        }
        assert forall|i: int|
            0 <= i < t.len() && !is_change_name(cs, #[trigger] t[i].name) implies i < existing.len()
                && t[i] == existing[i] by {
            if i == pos {
                assert(t[i].name == name);
            } else {
                assert(t[i] == s[i]);
            }
        }
        assert forall|j: int| 0 <= j < m implies holds_value(
            t,
            #[trigger] cs[j].record_set.name,
            cs[j].record_set.values[0],
        ) by {
            if j < m - 1 {
                let kj = lemma_reconcile_all_sources(desired, existing, j);
                assert(cs[j].record_set.values[0] == desired[kj].record_value());
                if cs[j].record_set.name == name {
                    assert(desired[kj].record_name() == desired[k].record_name());
                } else {
                    let f = lemma_holds_value_witness(
                        s,
                        cs[j].record_set.name,
                        cs[j].record_set.values[0],
                    );
                    assert(is_first_named(t, cs[j].record_set.name, f));
                    lemma_holds_value_intro(t, cs[j].record_set.name, cs[j].record_set.values[0], f);
                }
            }
        }
        assert forall|kk: int, i: int|
            0 <= kk < desired.len() && #[trigger] is_first_named(t, desired[kk].record_name(), i)
                implies t[i].rr_type == srv_type() by {
            if desired[kk].record_name() == name {
                if i != pos {
                    if i < pos {
                        assert(t[i].name != name);
                    } else {
                        assert(t[pos].name == name);
                    }
                }
            } else {
                assert(is_first_named(s, desired[kk].record_name(), i));
            }
        }
    }
}

/// Reconciling is idempotent once applied: after the provider has applied
/// the changes that reconciling `desired` against `existing` asks for,
/// reconciling `desired` again against the resulting record sets asks for
/// no change. This holds when records of the same name ask for the same
/// value, and the first record set under each desired name, where there is
/// one, is an SRV record set.
#[verifier::spinoff_prover]
pub proof fn lemma_reconcile_converges(desired: Seq<ServiceRecordView>, existing: Seq<RecordSetView>)
    requires
        names_agree(desired),
        first_named_are_srv(desired, existing),
    ensures
        reconcile_all(desired, apply_changes(existing, reconcile_all(desired, existing)))
            == Seq::<ChangeView>::empty(),
{
    let cs = reconcile_all(desired, existing);
    lemma_converging(desired, existing, cs.len() as int);
    assert(cs.subrange(0, cs.len() as int) =~= cs);
    let s = apply_changes(existing, cs);
    assert forall|k: int| 0 <= k < desired.len() implies holds_value(
        s,
        #[trigger] desired[k].record_name(),
        desired[k].record_value(),
    ) by {
        let name = desired[k].record_name();
        let value = desired[k].record_value();
        if holds_value(existing, name, value) {
            let i0 = lemma_holds_value_witness(existing, name, value);
            assert(!is_change_name(cs, name)) by {
                if is_change_name(cs, name) {
                    let j = choose|j: int| 0 <= j < cs.len() && cs[j].record_set.name == name;
                    let kj = lemma_reconcile_all_sources(desired, existing, j);
                    assert(desired[kj].record_name() == desired[k].record_name());
                }
            }
            assert(s[i0].name == existing[i0].name);
            assert(s[i0] == existing[i0]);
            assert forall|j: int| 0 <= j < i0 implies s[j].name != name by {
                assert(s[j].name == existing[j].name);
            }
            assert(is_first_named(s, name, i0));
            lemma_holds_value_intro(s, name, value, i0);
        } else {
            let j = lemma_reconcile_all_covers(desired, existing, k);
            assert(cs[j].record_set.values[0] == value);
            assert(holds_value(s, cs[j].record_set.name, cs[j].record_set.values[0]));
        }
    }
    lemma_reconcile_all_empty(desired, s);
}

/// A removed service asks for exactly one delete per record of its last
/// known definition, in order, whatever record sets the provider holds.
pub proof fn lemma_removal_deletes_every_record(
    service: Service,
    existing: Seq<RecordSetView>,
    other: Seq<RecordSetView>,
)
    ensures
        step_changes(Event::Deleted(service), existing) == step_changes(
            Event::Deleted(service),
            other,
        ),
        step_changes(Event::Deleted(service), existing).len() == records_or_empty(
            derive_records(service),
        ).len(),
        forall|k: int|
            0 <= k < records_or_empty(derive_records(service)).len() ==> step_changes(
                Event::Deleted(service),
                existing,
            )[k] == (#[trigger] records_or_empty(derive_records(service))[k]).delete(),
{
}

} // verus!
