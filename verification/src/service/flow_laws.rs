use crate::model::flow::{FlowDefOriginView, FlowInstanceDeployView, FlowInstanceView};
use crate::service::flow_plan::{
    deploy_record, entry_index, key_less, last_with_key, read_as_map, scheduled_host, spec_deploy_records,
    spec_flow_instance, spec_schedule,
};
use vstd::prelude::*;

verus! {

/// The record is that of some operator of some instance.
pub open spec fn record_of(instances: Seq<FlowInstanceView>, r: FlowInstanceDeployView) -> bool {
    exists|i: int, m: int|
        0 <= i < instances.len() && 0 <= m < instances[i].operators.len() && r == #[trigger] deploy_record(
            instances[i],
            m,
        )
}

/// The record of operator `m` of instance `i` is among the records of all
/// instances, and every record there is the record of some operator.
proof fn lemma_records_cover(instances: Seq<FlowInstanceView>)
    ensures
        forall|i: int, m: int|
            0 <= i < instances.len() && 0 <= m < instances[i].operators.len() ==> spec_deploy_records(
                instances,
            ).contains(#[trigger] deploy_record(instances[i], m)),
        forall|k: int|
            0 <= k < spec_deploy_records(instances).len() ==> record_of(
                instances,
                #[trigger] spec_deploy_records(instances)[k],
            ),
    decreases instances.len(),
{
    if instances.len() > 0 {
        let front = instances.drop_last();
        let last = instances.last();
        let tail = Seq::new(last.operators.len(), |m: int| deploy_record(last, m));
        lemma_records_cover(front);
        let all = spec_deploy_records(instances);
        assert(all == spec_deploy_records(front) + tail);
        assert forall|i: int, m: int|
            0 <= i < instances.len() && 0 <= m < instances[i].operators.len() implies all.contains(
                #[trigger] deploy_record(instances[i], m),
            ) by {
            if i < instances.len() - 1 {
                assert(front[i] == instances[i]);
                assert(spec_deploy_records(front).contains(deploy_record(front[i], m)));
                let k = choose|k: int|
                    0 <= k < spec_deploy_records(front).len() && spec_deploy_records(front)[k] == deploy_record(
                        front[i],
                        m,
                    );
                assert(all[k] == deploy_record(instances[i], m));
            } else {
                let k = spec_deploy_records(front).len() + m;
                assert(all[k] == tail[m]);
            }
        }
        assert forall|k: int| 0 <= k < all.len() implies record_of(instances, #[trigger] all[k]) by {
            let p = spec_deploy_records(front).len();
            if k < p {
                assert(all[k] == spec_deploy_records(front)[k]);
                assert(record_of(front, spec_deploy_records(front)[k]));
                let (i, m) = choose|i: int, m: int|
                    0 <= i < front.len() && 0 <= m < front[i].operators.len() && spec_deploy_records(front)[k]
                        == #[trigger] deploy_record(front[i], m);
                assert(front[i] == instances[i]);
                assert(all[k] == deploy_record(instances[i], m));
            } else {
                assert(all[k] == tail[k - p]);
                assert(all[k] == deploy_record(instances[instances.len() - 1], k - p));
            }
        }
    } else {
        assert(spec_deploy_records(instances).len() == 0);
    }
}

/// Carrying out a schedule changes where the operators run and nothing
/// else: each instance keeps its id, its definition, its streams and its
/// operators, with their numbers, names, types and ports.
pub proof fn law_schedule_keeps_flow(
    instances: Seq<FlowInstanceView>,
    parsed: Option<Seq<Seq<(Seq<char>, Seq<char>)>>>,
    names: Map<Seq<char>, Seq<char>>,
)
    ensures
        ({
            let out = spec_schedule(instances, parsed, names).0;
            &&& out.len() == instances.len()
            &&& forall|i: int|
                0 <= i < instances.len() ==> {
                    &&& (#[trigger] out[i]).instance_id == instances[i].instance_id
                    &&& out[i].version == instances[i].version
                    &&& out[i].robot_id == instances[i].robot_id
                    &&& out[i].edge_device_id == instances[i].edge_device_id
                    &&& out[i].streams == instances[i].streams
                    &&& out[i].operators.len() == instances[i].operators.len()
                }
            &&& forall|i: int, m: int|
                0 <= i < instances.len() && 0 <= m < instances[i].operators.len() ==> {
                    &&& (#[trigger] out[i].operators[m]).id == instances[i].operators[m].id
                    &&& out[i].operators[m].name == instances[i].operators[m].name
                    &&& out[i].operators[m].operator_id == instances[i].operators[m].operator_id
                    &&& out[i].operators[m].operator_type == instances[i].operators[m].operator_type
                    &&& out[i].operators[m].params == instances[i].operators[m].params
                    &&& out[i].operators[m].returns == instances[i].operators[m].returns
                }
        }),
{
}

/// A schedule that is carried out places every operator: each has a compute
/// node with a name, is pinned to that name and communicates by IP, and the
/// deployment records are exactly one per operator, each naming the
/// instance, the operator and the node that it runs on.
pub proof fn law_schedule_places_every_operator(
    instances: Seq<FlowInstanceView>,
    parsed: Option<Seq<Seq<(Seq<char>, Seq<char>)>>>,
    names: Map<Seq<char>, Seq<char>>,
)
    requires
        spec_schedule(instances, parsed, names).1 is Ok,
    ensures
        ({
            let out = spec_schedule(instances, parsed, names).0;
            let records = spec_schedule(instances, parsed, names).1->Ok_0;
            &&& forall|i: int, m: int|
                0 <= i < out.len() && 0 <= m < out[i].operators.len() ==> {
                    &&& (#[trigger] out[i].operators[m]).host_constraint is Some
                    &&& names.contains_key(out[i].operators[m].host_constraint->0)
                    &&& out[i].operators[m].node_selector_host == Some(
                        names[out[i].operators[m].host_constraint->0],
                    )
                    &&& out[i].operators[m].communicate_by_ip == Some(true)
                    &&& records.contains(deploy_record(out[i], m))
                }
            &&& forall|k: int| 0 <= k < records.len() ==> record_of(out, #[trigger] records[k])
        }),
{
    let s = parsed->0;
    let applied = crate::service::flow_plan::spec_apply_schedule(instances, s);
    lemma_records_cover(applied);
    let out = spec_schedule(instances, parsed, names).0;
    let records = spec_deploy_records(applied);
    assert forall|i: int, m: int| 0 <= i < out.len() && 0 <= m < out[i].operators.len() implies records.contains(
        #[trigger] deploy_record(out[i], m),
    ) by {
        assert(records.contains(deploy_record(applied[i], m)));
        assert(deploy_record(out[i], m) == deploy_record(applied[i], m));
    }
    assert forall|k: int| 0 <= k < records.len() implies record_of(out, #[trigger] records[k]) by {
        assert(record_of(applied, records[k]));
        let (i, m) = choose|i: int, m: int|
            0 <= i < applied.len() && 0 <= m < applied[i].operators.len() && records[k] == #[trigger] deploy_record(
                applied[i],
                m,
            );
        assert(deploy_record(out[i], m) == deploy_record(applied[i], m));
    }
}

/// A flow instance built from a stored definition carries the definition's
/// own version, robot and edge device and the given instance id; its
/// operators are the definition's roles, in order, with their numbers, names,
/// ids, ports and placements, and its streams are the definition's links, in
/// order, between the same roles.
pub proof fn law_flow_instance_keeps_definition(instance_id: Seq<char>, d: FlowDefOriginView)
    ensures
        ({
            let r = spec_flow_instance(instance_id, d);
            &&& r.instance_id == instance_id
            &&& r.version == d.version
            &&& r.robot_id == d.robot_id
            &&& r.edge_device_id == d.edge_device_id
            &&& r.operators.len() == d.roles.len()
            &&& forall|m: int|
                0 <= m < d.roles.len() ==> {
                    &&& (#[trigger] r.operators[m]).id == d.roles[m].id
                    &&& r.operators[m].name == d.roles[m].name
                    &&& r.operators[m].operator_id == d.roles[m].operator_id
                    &&& r.operators[m].params == d.roles[m].params
                    &&& r.operators[m].returns == d.roles[m].returns
                    &&& r.operators[m].host_constraint == d.roles[m].host_constraint
                    &&& r.operators[m].node_selector_host == d.roles[m].node_selector_host
                    &&& r.operators[m].communicate_by_ip == d.roles[m].communicate_by_ip
                }
            &&& r.streams.len() == d.links.len()
            &&& forall|k: int|
                0 <= k < d.links.len() ==> {
                    &&& (#[trigger] r.streams[k]).from_operator_id == d.links[k].from_role_id
                    &&& r.streams[k].to_operator_id == d.links[k].to_role_id
                }
        }),
{
}

/// No key comes before itself.
proof fn lemma_key_less_irreflexive(a: Seq<char>)
    ensures
        !key_less(a, a),
    decreases a.len(),
{
    if a.len() > 0 {
        lemma_key_less_irreflexive(a.drop_first());
    }
}

/// Where exactly one entry names operator `m`, the schedule sends the
/// operator to that entry's node.
proof fn lemma_only_entry_decides(o: Seq<(Seq<char>, Seq<char>)>, i: int, m: int)
    requires
        0 <= i < o.len(),
        entry_index(o[i]) == Some(m + 1),
        forall|i2: int| 0 <= i2 < o.len() && i2 != i ==> entry_index(#[trigger] o[i2]) != Some(m + 1),
    ensures
        scheduled_host(o, m) == Some(o[i].1),
    decreases o.len(),
{
    if i < o.len() - 1 {
        let p = o.drop_last();
        assert(entry_index(o.last()) != Some(m + 1)) by {
            assert(o.last() == o[o.len() - 1]);
        }
        assert forall|i2: int| 0 <= i2 < p.len() && i2 != i implies entry_index(#[trigger] p[i2]) != Some(m + 1) by {
            assert(p[i2] == o[i2]);
        }
        lemma_only_entry_decides(p, i, m);
        assert(p[i] == o[i]);
    }
}

/// Reading a scheduler's answer keeps every entry: where an object of the
/// answer names an operator by a key that no other key of the object reads
/// as the same number, the operator is sent to the node that the key's last
/// entry gives, whether or not other operators go to the same node.
pub proof fn law_schedule_keeps_every_entry(
    es: Seq<(Seq<char>, Seq<char>)>,
    o: Seq<(Seq<char>, Seq<char>)>,
    j: int,
)
    requires
        read_as_map(es, o),
        0 <= j < es.len(),
        last_with_key(es, j),
        entry_index(es[j]) is Some,
        forall|j2: int|
            0 <= j2 < es.len() && (#[trigger] es[j2]).0 != es[j].0 ==> entry_index(es[j2]) != entry_index(es[j]),
    ensures
        scheduled_host(o, entry_index(es[j])->0 - 1) == Some(es[j].1),
{
    let m = entry_index(es[j])->0 - 1;
    assert(o.contains(es[j]));
    let i = choose|i: int| 0 <= i < o.len() && o[i] == es[j];
    assert forall|i2: int| 0 <= i2 < o.len() && i2 != i implies entry_index(#[trigger] o[i2]) != Some(m + 1) by {
        let j2 = choose|j2: int| 0 <= j2 < es.len() && last_with_key(es, j2) && #[trigger] es[j2] == o[i2];
        if es[j2].0 == es[j].0 {
            if j2 < j {
                assert(es[j].0 != es[j2].0);
            } else if j < j2 {
                assert(es[j2].0 != es[j].0);
            }
            lemma_key_less_irreflexive(o[i].0);
            if i < i2 {
                assert(key_less(o[i].0, o[i2].0));
            } else {
                assert(key_less(o[i2].0, o[i].0));
            }
        }
    }
    lemma_only_entry_decides(o, i, m);
}

} // verus!
