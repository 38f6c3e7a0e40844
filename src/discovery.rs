use vstd::prelude::*;

use crate::kubernetes::{
    annotation, derive_records, hostname_annotation, map_to_records, node_port_type,
    service_record_views, Service, ServiceRecord, ServiceRecordView,
};

verus! {

pub open spec fn records_or_empty(o: Option<Seq<ServiceRecordView>>) -> Seq<ServiceRecordView> {
    match o {
        Some(s) => s,
        None => seq![],
    }
}

/// The records of every service, service after service, in port order.
pub open spec fn all_records(services: Seq<Service>) -> Seq<ServiceRecordView>
    decreases services.len(),
{
    if services.len() == 0 {
        seq![]
    } else {
        all_records(services.drop_last()) + records_or_empty(derive_records(services.last()))
    }
}

/// The records that all of `services` ask for, in order; services that are
/// not eligible add none.
pub fn discover_services(services: &[Service]) -> (r: Vec<ServiceRecord>)
    ensures
        service_record_views(r@) == all_records(services@),
{
    let mut out: Vec<ServiceRecord> = Vec::new();
    let mut i: usize = 0;
    while i < services.len()
        invariant
            i <= services@.len(),
            service_record_views(out@) == all_records(services@.subrange(0, i as int)),
        decreases services@.len() - i,
    {
        proof {
            assert(services@.subrange(0, i + 1).drop_last() =~= services@.subrange(0, i as int));
        }
        let ghost before = out@;
        match map_to_records(&services[i]) {
            Some(mut records) => {
                let ghost added = records@;
                out.append(&mut records);
                assert(service_record_views(out@) =~= service_record_views(before)
                    + service_record_views(added));
            },
            None => {
                assert(service_record_views(out@) =~= service_record_views(before) + seq![]);
            },
        }
        i = i + 1;
    }
    proof {
        assert(services@.subrange(0, services@.len() as int) =~= services@);
    }
    out
}

/// A service that is not of the node-port type asks for no record.
pub proof fn lemma_other_types_derive_nothing(service: Service)
    requires
        !(service.spec matches Some(spec) && spec.type_ matches Some(t) && t@ == node_port_type()),
    ensures
        records_or_empty(derive_records(service)) == Seq::<ServiceRecordView>::empty(),
{
}

/// A service without a non-empty hostname annotation asks for no record.
pub proof fn lemma_no_hostname_derives_nothing(service: Service)
    requires
        !(service.annotations matches Some(anns) && annotation(anns@, hostname_annotation()) matches Some(
            h,
        ) && h.len() > 0),
    ensures
        records_or_empty(derive_records(service)) == Seq::<ServiceRecordView>::empty(),
{
}

} // verus!
