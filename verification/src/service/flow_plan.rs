use crate::model::flow::{
    instances_view, operators_view, FlowDefOrigin, FlowInstance, FlowInstanceDeploy,
    FlowInstanceDeployView, FlowInstanceView, FlowLink, FlowOperator, FlowOperatorView, StreamDef,
    StreamDefView,
};
use crate::model::topo::opt_view;
use crate::text::{parse_usize, spec_parse_unsigned, str_eq};
use vstd::hash_map::StringHashMap;
use vstd::prelude::*;

verus! {

/// What `str::to_lowercase` gives for a string.
pub uninterp spec fn spec_to_lowercase(s: Seq<char>) -> Seq<char>;

/// Lowers a string with `str::to_lowercase`; its result is named, since it
/// follows Unicode's case tables.
#[verifier::external_body]
fn to_lowercase(s: &str) -> (r: String)
    ensures
        r@ == spec_to_lowercase(s@),
{
    s.to_lowercase()
}

/// The type of a role once lowered, with `transform` read as `operator`.
pub open spec fn normalized_type(t: Seq<char>) -> Seq<char> {
    if spec_to_lowercase(t) == "transform"@ {
        "operator"@
    } else {
        spec_to_lowercase(t)
    }
}

/// Lowers an operator type, reading `transform` as `operator`.
pub fn normalize_operator_type(t: &str) -> (r: String)
    ensures
        r@ == normalized_type(t@),
{
    let lower = to_lowercase(t);
    if str_eq(lower.as_str(), "transform") {
        String::from_str("operator")
    } else {
        lower
    }
}

/// The link names existing roles and ports.
pub open spec fn link_ok(roles: Seq<FlowOperatorView>, l: FlowLink) -> bool {
    &&& 1 <= l.from_role_id <= roles.len()
    &&& l.from_role_output_port < roles[l.from_role_id - 1].returns.len()
    &&& 1 <= l.to_role_id <= roles.len()
    &&& l.to_role_input_port < roles[l.to_role_id - 1].params.len()
}

/// Every link of the definition names existing roles and ports.
pub open spec fn links_resolve(d: crate::model::flow::FlowDefOriginView) -> bool {
    forall|k: int| 0 <= k < d.links.len() ==> #[trigger] link_ok(d.roles, d.links[k])
}

/// The stream that a link describes: the stream bound to the output port of
/// its source role and the one bound to the input port of its target role.
pub open spec fn link_stream(roles: Seq<FlowOperatorView>, l: FlowLink) -> StreamDefView {
    StreamDefView {
        from_operator_id: l.from_role_id,
        from_operator_output_stream: roles[l.from_role_id - 1].returns[l.from_role_output_port as int].bind_stream,
        to_operator_id: l.to_role_id,
        to_operator_input_stream: roles[l.to_role_id - 1].params[l.to_role_input_port as int].bind_stream,
    }
}

/// The flow instance that a stored definition describes: its roles, with
/// their types normalized, become the operators, and its links the streams.
pub open spec fn spec_flow_instance(instance_id: Seq<char>, d: crate::model::flow::FlowDefOriginView) -> FlowInstanceView {
    FlowInstanceView {
        instance_id,
        version: d.version,
        robot_id: d.robot_id,
        edge_device_id: d.edge_device_id,
        operators: Seq::new(
            d.roles.len(),
            |m: int| FlowOperatorView { operator_type: normalized_type(d.roles[m].operator_type), ..d.roles[m] },
        ),
        streams: Seq::new(d.links.len(), |k: int| link_stream(d.roles, d.links[k])),
    }
}

/// Whether every link of the definition names existing roles and ports.
pub fn check_links(d: &FlowDefOrigin) -> (r: bool)
    ensures
        r == links_resolve(d@),
{
    let n = d.links.len();
    let mut k: usize = 0;
    while k < n
        invariant
            n == d@.links.len(),
            k <= n,
            forall|x: int| 0 <= x < k ==> #[trigger] link_ok(d@.roles, d@.links[x]),
        decreases n - k,
    {
        let l = d.links[k];
        let nr = d.roles.len();
        if l.from_role_id < 1 || l.from_role_id as usize > nr || l.to_role_id < 1 || l.to_role_id as usize > nr {
            assert(!link_ok(d@.roles, d@.links[k as int]));
            return false;
        }
        let from = &d.roles[(l.from_role_id - 1) as usize];
        let to = &d.roles[(l.to_role_id - 1) as usize];
        proof {
            assert(d@.roles[l.from_role_id - 1] == d.roles@[l.from_role_id - 1]@);
            assert(d@.roles[l.to_role_id - 1] == d.roles@[l.to_role_id - 1]@);
        }
        if l.from_role_output_port as usize >= from.returns.len() || l.to_role_input_port as usize >= to.params.len() {
            assert(!link_ok(d@.roles, d@.links[k as int]));
            return false;
        }
        assert(link_ok(d@.roles, d@.links[k as int]));
        k += 1;
    }
    true
}

/// Builds the flow instance that a stored definition describes.
pub fn build_flow_instance(instance_id: String, d: FlowDefOrigin) -> (r: FlowInstance)
    requires
        links_resolve(d@),
    ensures
        r@ == spec_flow_instance(instance_id@, d@),
{
    let n = d.links.len();
    let mut streams: Vec<StreamDef> = Vec::new();
    let mut k: usize = 0;
    while k < n
        invariant
            n == d@.links.len(),
            links_resolve(d@),
            k <= n,
            streams@.len() == k,
            forall|x: int| 0 <= x < k ==> #[trigger] streams@[x]@ == link_stream(d@.roles, d@.links[x]),
        decreases n - k,
    {
        let l = d.links[k];
        assert(link_ok(d@.roles, d@.links[k as int]));
        let from = &d.roles[(l.from_role_id - 1) as usize];
        let to = &d.roles[(l.to_role_id - 1) as usize];
        proof {
            assert(d@.roles[l.from_role_id - 1] == d.roles@[l.from_role_id - 1]@);
            assert(d@.roles[l.to_role_id - 1] == d.roles@[l.to_role_id - 1]@);
            assert(from@.returns[l.from_role_output_port as int] == from.returns@[l.from_role_output_port as int]@);
            assert(to@.params[l.to_role_input_port as int] == to.params@[l.to_role_input_port as int]@);
        }
        streams.push(
            StreamDef {
                from_operator_id: l.from_role_id,
                from_operator_output_stream: from.returns[l.from_role_output_port as usize].bind_stream.clone(),
                to_operator_id: l.to_role_id,
                to_operator_input_stream: to.params[l.to_role_input_port as usize].bind_stream.clone(),
            },
        );
        k += 1;
    }
    let nr = d.roles.len();
    let mut operators: Vec<FlowOperator> = Vec::new();
    let mut m: usize = 0;
    while m < nr
        invariant
            nr == d@.roles.len(),
            m <= nr,
            operators@.len() == m,
            forall|x: int| 0 <= x < m ==> #[trigger] operators@[x]@ == (FlowOperatorView {
                operator_type: normalized_type(d@.roles[x].operator_type),
                ..d@.roles[x]
            }),
        decreases nr - m,
    {
        let mut op = d.roles[m].duplicate();
        op.operator_type = normalize_operator_type(d.roles[m].operator_type.as_str());
        proof {
            assert(d@.roles[m as int] == d.roles@[m as int]@);
        }
        operators.push(op);
        m += 1;
    }
    let r = FlowInstance {
        instance_id,
        version: d.version,
        robot_id: d.robot_id,
        edge_device_id: d.edge_device_id,
        operators,
        streams,
    };
    proof {
        assert(r@.operators =~= spec_flow_instance(instance_id@, d@).operators);
        assert(r@.streams =~= spec_flow_instance(instance_id@, d@).streams);
    }
    r
}


/// The plain values of a schedule: for each instance, in order, the pairs of
/// an operator's number, as text, and the compute node it goes to.
pub open spec fn schedule_view(s: Seq<Vec<(String, String)>>) -> Seq<Seq<(Seq<char>, Seq<char>)>> {
    s.map_values(|v: Vec<(String, String)>| entries_view(v@))
}

/// The plain values of the entries of one instance's schedule.
pub open spec fn entries_view(v: Seq<(String, String)>) -> Seq<(Seq<char>, Seq<char>)> {
    v.map_values(|e: (String, String)| (e.0@, e.1@))
}

/// The operator number that a schedule entry names.
pub open spec fn entry_index(e: (Seq<char>, Seq<char>)) -> Option<int> {
    spec_parse_unsigned(e.0, usize::MAX as int)
}

/// Every scheduled instance exists, and every entry names an operator of it.
pub open spec fn schedule_applicable(instances: Seq<FlowInstanceView>, schedule: Seq<Seq<(Seq<char>, Seq<char>)>>) -> bool {
    &&& schedule.len() <= instances.len()
    &&& forall|i: int, e: int|
        0 <= i < schedule.len() && 0 <= e < schedule[i].len() ==> (#[trigger] entry_index(schedule[i][e]) matches Some(
            k,
        ) && 1 <= k <= instances[i].operators.len())
}

/// The compute node that the entries send operator `m` (counted from 0) to:
/// the last entry that names it wins.
pub open spec fn scheduled_host(entries: Seq<(Seq<char>, Seq<char>)>, m: int) -> Option<Seq<char>>
    decreases entries.len(),
{
    if entries.len() == 0 {
        None
    } else if entry_index(entries.last()) == Some(m + 1) {
        Some(entries.last().1)
    } else {
        scheduled_host(entries.drop_last(), m)
    }
}

/// The instances once the schedule has set the compute node of each
/// operator that it names.
pub open spec fn spec_apply_schedule(instances: Seq<FlowInstanceView>, schedule: Seq<Seq<(Seq<char>, Seq<char>)>>) -> Seq<FlowInstanceView> {
    Seq::new(
        instances.len(),
        |i: int|
            if i < schedule.len() {
                FlowInstanceView {
                    operators: Seq::new(
                        instances[i].operators.len(),
                        |m: int|
                            match scheduled_host(schedule[i], m) {
                                Some(h) => FlowOperatorView { host_constraint: Some(h), ..instances[i].operators[m] },
                                None => instances[i].operators[m],
                            },
                    ),
                    ..instances[i]
                }
            } else {
                instances[i]
            },
    )
}

/// A character that a JSON string holds as itself: no quote, no backslash,
/// no control character.
pub open spec fn plain_char(c: char) -> bool {
    c != '"' && c != '\\' && c as int >= 0x20
}

/// Every key and value of every object is made of such characters.
pub open spec fn plain_objects(objs: Seq<Seq<(Seq<char>, Seq<char>)>>) -> bool {
    forall|i: int, e: int, x: int|
        0 <= i < objs.len() && 0 <= e < objs[i].len() ==> (0 <= x < objs[i][e].0.len() ==> plain_char(
            #[trigger] objs[i][e].0[x],
        )) && (0 <= x < objs[i][e].1.len() ==> plain_char(objs[i][e].1[x]))
}

/// A string in JSON quotes.
pub open spec fn quoted(s: Seq<char>) -> Seq<char> {
    seq!['"'] + s + seq!['"']
}

/// The separator between the items of a JSON list or object: `,`, or `, `
/// in the spaced style.
pub open spec fn item_separator(spaced: bool) -> Seq<char> {
    if spaced {
        seq![',', ' ']
    } else {
        seq![',']
    }
}

/// One entry of a JSON object: `"key":"value"`, or `"key": "value"` in the
/// spaced style.
pub open spec fn render_entry(e: (Seq<char>, Seq<char>), spaced: bool) -> Seq<char> {
    quoted(e.0) + (if spaced {
        seq![':', ' ']
    } else {
        seq![':']
    }) + quoted(e.1)
}

/// The entries of a JSON object, separated.
pub open spec fn render_entries(es: Seq<(Seq<char>, Seq<char>)>, spaced: bool) -> Seq<char>
    decreases es.len(),
{
    if es.len() == 0 {
        Seq::empty()
    } else if es.len() == 1 {
        render_entry(es[0], spaced)
    } else {
        render_entries(es.drop_last(), spaced) + item_separator(spaced) + render_entry(es.last(), spaced)
    }
}

/// A JSON object of strings with these entries, in this order.
pub open spec fn render_object(es: Seq<(Seq<char>, Seq<char>)>, spaced: bool) -> Seq<char> {
    seq!['{'] + render_entries(es, spaced) + seq!['}']
}

/// The objects of a JSON list, separated.
pub open spec fn render_objects(objs: Seq<Seq<(Seq<char>, Seq<char>)>>, spaced: bool) -> Seq<char>
    decreases objs.len(),
{
    if objs.len() == 0 {
        Seq::empty()
    } else if objs.len() == 1 {
        render_object(objs[0], spaced)
    } else {
        render_objects(objs.drop_last(), spaced) + item_separator(spaced) + render_object(objs.last(), spaced)
    }
}

/// A JSON list of objects of strings, written compactly or, as Python's
/// `json.dumps` writes it, spaced.
pub open spec fn render_schedule(objs: Seq<Seq<(Seq<char>, Seq<char>)>>, spaced: bool) -> Seq<char> {
    seq!['['] + render_objects(objs, spaced) + seq![']']
}

/// `a` comes before `b` in the order of their characters' code points, which
/// is the order of their UTF-8 bytes.
pub open spec fn key_less(a: Seq<char>, b: Seq<char>) -> bool
    decreases a.len(),
{
    if a.len() == 0 {
        b.len() > 0
    } else if b.len() == 0 {
        false
    } else if (a[0] as int) < (b[0] as int) {
        true
    } else if a[0] == b[0] {
        key_less(a.drop_first(), b.drop_first())
    } else {
        false
    }
}

/// Entry `j` is the last of `es` with its key.
pub open spec fn last_with_key(es: Seq<(Seq<char>, Seq<char>)>, j: int) -> bool {
    forall|j2: int| j < j2 < es.len() ==> #[trigger] es[j2].0 != es[j].0
}

/// The entries `o` are what an ordered map holds once the entries `es` were
/// inserted into it in turn: each key once, with the last value given for
/// it, in key order.
pub open spec fn read_as_map(es: Seq<(Seq<char>, Seq<char>)>, o: Seq<(Seq<char>, Seq<char>)>) -> bool {
    &&& forall|i: int, i2: int| 0 <= i < i2 < o.len() ==> key_less(#[trigger] o[i].0, #[trigger] o[i2].0)
    &&& forall|j: int| 0 <= j < es.len() && last_with_key(es, j) ==> o.contains(#[trigger] es[j])
    &&& forall|i: int|
        #![trigger o[i]]
        0 <= i < o.len() ==> exists|j: int| 0 <= j < es.len() && last_with_key(es, j) && #[trigger] es[j] == o[i]
}

/// Each object of the list is read as such a map.
pub open spec fn read_as_maps(objs: Seq<Seq<(Seq<char>, Seq<char>)>>, s: Seq<Seq<(Seq<char>, Seq<char>)>>) -> bool {
    &&& s.len() == objs.len()
    &&& forall|i: int| 0 <= i < objs.len() ==> read_as_map(#[trigger] objs[i], s[i])
}

/// The text is a JSON list of objects of strings made of plain characters,
/// written in one of the two styles.
pub open spec fn plain_rendering(text: Seq<char>) -> bool {
    exists|objs: Seq<Seq<(Seq<char>, Seq<char>)>>, spaced: bool|
        plain_objects(objs) && text == #[trigger] render_schedule(objs, spaced)
}

/// Where the text is such a list, the schedule `s` holds, for each of its
/// objects, what an ordered map holds once the object's entries were
/// inserted into it in turn.
pub open spec fn reads_rendering(text: Seq<char>, s: Seq<Seq<(Seq<char>, Seq<char>)>>) -> bool {
    forall|objs: Seq<Seq<(Seq<char>, Seq<char>)>>, spaced: bool|
        plain_objects(objs) && text == #[trigger] render_schedule(objs, spaced) ==> read_as_maps(objs, s)
}

/// What `serde_json` reads from a schedule: a list with one object per
/// instance, mapping operator numbers to compute nodes, each object's
/// entries in key order; `None` when the text is no such list.
pub uninterp spec fn spec_parse_schedule(text: Seq<char>) -> Option<Seq<Seq<(Seq<char>, Seq<char>)>>>;

/// Reads a schedule with `serde_json::from_str` into a list of ordered maps,
/// and hands back their entries in key order.
#[verifier::external_body]
fn parse_schedule_json(text: &str) -> (r: Option<Vec<Vec<(String, String)>>>)
    ensures
        match spec_parse_schedule(text@) {
            Some(s) => r matches Some(v) && schedule_view(v@) == s,
            None => r is None,
        },
        plain_rendering(text@) ==> r is Some,
        r matches Some(v) ==> reads_rendering(text@, schedule_view(v@)),
{
    let parsed: Option<Vec<std::collections::BTreeMap<String, String>>> = serde_json::from_str(text).ok();
    parsed.map(|v| v.into_iter().map(|m| m.into_iter().collect()).collect())
}

/// Reads the schedule that the scheduler wrote.
pub fn parse_schedule(text: &str) -> (r: Option<Vec<Vec<(String, String)>>>)
    ensures
        match spec_parse_schedule(text@) {
            Some(s) => r matches Some(v) && schedule_view(v@) == s,
            None => r is None,
        },
        plain_rendering(text@) ==> r is Some,
        r matches Some(v) ==> reads_rendering(text@, schedule_view(v@)),
{
    parse_schedule_json(text)
}

/// Whether the schedule applies to the instances.
pub fn check_schedule(instances: &Vec<FlowInstance>, schedule: &Vec<Vec<(String, String)>>) -> (r: bool)
    ensures
        r == schedule_applicable(instances_view(instances@), schedule_view(schedule@)),
{
    let ghost iv = instances_view(instances@);
    let ghost sv = schedule_view(schedule@);
    if schedule.len() > instances.len() {
        return false;
    }
    let n = schedule.len();
    let mut i: usize = 0;
    while i < n
        invariant
            n == schedule@.len(),
            n <= instances@.len(),
            iv == instances_view(instances@),
            sv == schedule_view(schedule@),
            i <= n,
            forall|x: int, e: int|
                0 <= x < i && 0 <= e < sv[x].len() ==> (#[trigger] entry_index(sv[x][e]) matches Some(k) && 1 <= k
                    <= iv[x].operators.len()),
        decreases n - i,
    {
        let entries = &schedule[i];
        let ops = instances[i].operators.len();
        proof {
            assert(sv[i as int] == entries_view(entries@));
            assert(iv[i as int] == instances@[i as int]@);
        }
        let m = entries.len();
        let mut e: usize = 0;
        while e < m
            invariant
                m == entries@.len(),
                iv == instances_view(instances@),
                sv == schedule_view(schedule@),
                i < n,
                n == schedule@.len(),
                n <= instances@.len(),
                sv[i as int] == entries_view(entries@),
                ops == iv[i as int].operators.len(),
                e <= m,
                forall|y: int| 0 <= y < e ==> (#[trigger] entry_index(sv[i as int][y]) matches Some(k) && 1 <= k <= ops),
            decreases m - e,
        {
            let k = parse_usize(entries[e].0.as_str());
            proof {
                assert(sv[i as int][e as int] == (entries@[e as int].0@, entries@[e as int].1@));
            }
            match k {
                Some(k) => {
                    if k < 1 || k > ops {
                        assert(entry_index(sv[i as int][e as int]) == Some(k as int));
                        return false;
                    }
                },
                None => {
                    assert(entry_index(sv[i as int][e as int]) is None);
                    return false;
                },
            }
            e += 1;
        }
        i += 1;
    }
    true
}

/// The compute node that the entries send operator `m` to.
fn find_host(entries: &Vec<(String, String)>, m: usize) -> (r: Option<String>)
    ensures
        opt_view(r) == scheduled_host(entries_view(entries@), m as int),
{
    let ghost ev = entries_view(entries@);
    let mut i = entries.len();
    proof {
        assert(ev.take(i as int) =~= ev);
    }
    while i > 0
        invariant
            i <= entries@.len(),
            ev == entries_view(entries@),
            scheduled_host(ev, m as int) == scheduled_host(ev.take(i as int), m as int),
        decreases i,
    {
        let k = parse_usize(entries[i - 1].0.as_str());
        proof {
            assert(ev.take(i as int).drop_last() =~= ev.take(i - 1));
            assert(ev.take(i as int).last() == ev[i - 1]);
            assert(ev[i - 1] == (entries@[i - 1].0@, entries@[i - 1].1@));
        }
        match k {
            Some(k) => {
                if k >= 1 && k - 1 == m {
                    assert(entry_index(ev[i - 1]) == Some(k as int));
                    assert(scheduled_host(ev.take(i as int), m as int) == Some(ev[i - 1].1));
                    return Some(entries[i - 1].1.clone());
                }
            },
            None => {},
        }
        i -= 1;
    }
    None
}

/// Sends each operator that the schedule names to its compute node.
pub fn apply_schedule(instances: &mut Vec<FlowInstance>, schedule: &Vec<Vec<(String, String)>>)
    requires
        schedule_applicable(instances_view(old(instances)@), schedule_view(schedule@)),
    ensures
        instances_view(final(instances)@) == spec_apply_schedule(
            instances_view(old(instances)@),
            schedule_view(schedule@),
        ),
{
    let ghost iv = instances_view(instances@);
    let ghost sv = schedule_view(schedule@);
    let n = instances.len();
    let mut result: Vec<FlowInstance> = Vec::new();
    let mut i: usize = 0;
    while i < n
        invariant
            n == instances@.len(),
            iv == instances_view(instances@),
            sv == schedule_view(schedule@),
            i <= n,
            result@.len() == i,
            forall|x: int| 0 <= x < i ==> #[trigger] result@[x]@ == spec_apply_schedule(iv, sv)[x],
        decreases n - i,
    {
        let inst = &instances[i];
        proof {
            assert(iv[i as int] == inst@);
        }
        if i < schedule.len() {
            let entries = &schedule[i];
            proof {
                assert(sv[i as int] == entries_view(entries@));
            }
            let m = inst.operators.len();
            let mut ops: Vec<FlowOperator> = Vec::new();
            let mut j: usize = 0;
            while j < m
                invariant
                    m == inst.operators@.len(),
                    sv[i as int] == entries_view(entries@),
                    iv[i as int] == inst@,
                    j <= m,
                    ops@.len() == j,
                    forall|x: int| 0 <= x < j ==> #[trigger] ops@[x]@ == (match scheduled_host(sv[i as int], x) {
                        Some(h) => FlowOperatorView { host_constraint: Some(h), ..iv[i as int].operators[x] },
                        None => iv[i as int].operators[x],
                    }),
                decreases m - j,
            {
                let mut op = inst.operators[j].duplicate();
                proof {
                    assert(iv[i as int].operators[j as int] == inst.operators@[j as int]@);
                }
                match find_host(entries, j) {
                    Some(h) => {
                        op.host_constraint = Some(h);
                    },
                    None => {},
                }
                ops.push(op);
                j += 1;
            }
            proof {
                assert(operators_view(ops@) =~= spec_apply_schedule(iv, sv)[i as int].operators);
            }
            result.push(inst.with_operators(ops));
        } else {
            let mut ops: Vec<FlowOperator> = Vec::new();
            let m = inst.operators.len();
            let mut j: usize = 0;
            while j < m
                invariant
                    m == inst.operators@.len(),
                    j <= m,
                    ops@.len() == j,
                    forall|x: int| 0 <= x < j ==> #[trigger] ops@[x]@ == inst.operators@[x]@,
                decreases m - j,
            {
                ops.push(inst.operators[j].duplicate());
                j += 1;
            }
            proof {
                assert(operators_view(ops@) =~= operators_view(inst.operators@));
            }
            result.push(inst.with_operators(ops));
        }
        i += 1;
    }
    proof {
        assert(instances_view(result@) =~= spec_apply_schedule(iv, sv));
    }
    *instances = result;
}


/// The plain values of a map from node ids to node names.
pub open spec fn names_view(m: Map<Seq<char>, String>) -> Map<Seq<char>, Seq<char>> {
    Map::new(|k: Seq<char>| m.contains_key(k), |k: Seq<char>| m[k]@)
}

/// Every operator has a compute node, and the node has a name.
pub open spec fn deployable(instances: Seq<FlowInstanceView>, names: Map<Seq<char>, Seq<char>>) -> bool {
    forall|i: int, m: int|
        0 <= i < instances.len() && 0 <= m < instances[i].operators.len() ==> {
            &&& (#[trigger] instances[i].operators[m]).host_constraint is Some
            &&& names.contains_key(instances[i].operators[m].host_constraint->0)
        }
}

/// An operator once deployed: its node selector names its node's name, and
/// it communicates by IP.
pub open spec fn deployed_operator(op: FlowOperatorView, names: Map<Seq<char>, Seq<char>>) -> FlowOperatorView {
    FlowOperatorView {
        node_selector_host: Some(names[op.host_constraint->0]),
        communicate_by_ip: Some(true),
        ..op
    }
}

/// The instances once each operator is deployed.
pub open spec fn spec_deployed_instances(instances: Seq<FlowInstanceView>, names: Map<Seq<char>, Seq<char>>) -> Seq<FlowInstanceView> {
    Seq::new(
        instances.len(),
        |i: int|
            FlowInstanceView {
                operators: Seq::new(
                    instances[i].operators.len(),
                    |m: int| deployed_operator(instances[i].operators[m], names),
                ),
                ..instances[i]
            },
    )
}

/// The deployment record of operator `m` of an instance.
pub open spec fn deploy_record(inst: FlowInstanceView, m: int) -> FlowInstanceDeployView {
    FlowInstanceDeployView {
        id: inst.instance_id,
        operator_index: inst.operators[m].id,
        operator_id: inst.operators[m].operator_id,
        compute_node_id: inst.operators[m].host_constraint->0,
    }
}

/// The deployment records of all operators, instance by instance.
pub open spec fn spec_deploy_records(instances: Seq<FlowInstanceView>) -> Seq<FlowInstanceDeployView>
    decreases instances.len(),
{
    if instances.len() == 0 {
        Seq::empty()
    } else {
        spec_deploy_records(instances.drop_last()) + Seq::new(
            instances.last().operators.len(),
            |m: int| deploy_record(instances.last(), m),
        )
    }
}

/// The plain values of a list of deployment records.
pub open spec fn deploys_view(s: Seq<FlowInstanceDeploy>) -> Seq<FlowInstanceDeployView> {
    s.map_values(|d: FlowInstanceDeploy| d@)
}

/// Whether every operator has a compute node with a name.
pub fn check_deployable(instances: &Vec<FlowInstance>, node_map: &StringHashMap<String>) -> (r: bool)
    ensures
        r == deployable(instances_view(instances@), names_view(node_map@)),
{
    let ghost iv = instances_view(instances@);
    let n = instances.len();
    let mut i: usize = 0;
    while i < n
        invariant
            n == instances@.len(),
            iv == instances_view(instances@),
            i <= n,
            forall|x: int, m: int|
                0 <= x < i && 0 <= m < iv[x].operators.len() ==> {
                    &&& (#[trigger] iv[x].operators[m]).host_constraint is Some
                    &&& names_view(node_map@).contains_key(iv[x].operators[m].host_constraint->0)
                },
        decreases n - i,
    {
        let ops = &instances[i].operators;
        proof {
            assert(iv[i as int] == instances@[i as int]@);
        }
        let m = ops.len();
        let mut j: usize = 0;
        while j < m
            invariant
                m == ops@.len(),
                iv == instances_view(instances@),
                i < n,
                n == instances@.len(),
                iv[i as int].operators == operators_view(ops@),
                j <= m,
                forall|y: int|
                    0 <= y < j ==> {
                        &&& (#[trigger] iv[i as int].operators[y]).host_constraint is Some
                        &&& names_view(node_map@).contains_key(iv[i as int].operators[y].host_constraint->0)
                    },
            decreases m - j,
        {
            proof {
                assert(iv[i as int].operators[j as int] == ops@[j as int]@);
            }
            match &ops[j].host_constraint {
                None => {
                    return false;
                },
                Some(h) => {
                    if !node_map.contains_key(h.as_str()) {
                        return false;
                    }
                },
            }
            j += 1;
        }
        i += 1;
    }
    true
}

/// Deploys every operator to its compute node: its node selector names the
/// node's name and it communicates by IP; hands back one deployment record
/// per operator, instance by instance.
pub fn plan_deployments(instances: &mut Vec<FlowInstance>, node_map: &StringHashMap<String>) -> (r: Vec<FlowInstanceDeploy>)
    requires
        deployable(instances_view(old(instances)@), names_view(node_map@)),
    ensures
        instances_view(final(instances)@) == spec_deployed_instances(
            instances_view(old(instances)@),
            names_view(node_map@),
        ),
        deploys_view(r@) == spec_deploy_records(instances_view(old(instances)@)),
{
    let ghost iv = instances_view(instances@);
    let ghost names = names_view(node_map@);
    let n = instances.len();
    let mut result: Vec<FlowInstance> = Vec::new();
    let mut deploys: Vec<FlowInstanceDeploy> = Vec::new();
    let mut i: usize = 0;
    while i < n
        invariant
            n == instances@.len(),
            iv == instances_view(instances@),
            names == names_view(node_map@),
            deployable(iv, names),
            i <= n,
            result@.len() == i,
            forall|x: int| 0 <= x < i ==> #[trigger] result@[x]@ == spec_deployed_instances(iv, names)[x],
            deploys_view(deploys@) == spec_deploy_records(iv.take(i as int)),
        decreases n - i,
    {
        let inst = &instances[i];
        proof {
            assert(iv[i as int] == inst@);
        }
        let ghost before = deploys_view(deploys@);
        let m = inst.operators.len();
        let mut ops: Vec<FlowOperator> = Vec::new();
        let mut j: usize = 0;
        while j < m
            invariant
                m == inst.operators@.len(),
                iv[i as int] == inst@,
                i < n,
                n == iv.len(),
                names == names_view(node_map@),
                deployable(iv, names),
                j <= m,
                ops@.len() == j,
                forall|x: int| 0 <= x < j ==> #[trigger] ops@[x]@ == deployed_operator(iv[i as int].operators[x], names),
                deploys_view(deploys@) == before + Seq::new(j as nat, |x: int| deploy_record(iv[i as int], x)),
            decreases m - j,
        {
            let op = &inst.operators[j];
            proof {
                assert(iv[i as int].operators[j as int] == op@);
                assert(iv[i as int].operators[j as int].host_constraint is Some);
            }
            let host = match &op.host_constraint {
                Some(h) => h,
                None => {
                    assert(false);
                    return Vec::new();
                },
            };
            let name = match node_map.get(host.as_str()) {
                Some(nm) => nm.clone(),
                None => {
                    assert(false);
                    return Vec::new();
                },
            };
            let ghost old_deploys = deploys@;
            deploys.push(
                FlowInstanceDeploy {
                    id: inst.instance_id.clone(),
                    operator_index: op.id,
                    operator_id: op.operator_id.clone(),
                    compute_node_id: host.clone(),
                },
            );
            let mut op2 = op.duplicate();
            op2.node_selector_host = Some(name);
            op2.communicate_by_ip = Some(true);
            ops.push(op2);
            proof {
                assert(deploys@.last()@ == deploy_record(iv[i as int], j as int));
                assert(deploys_view(deploys@) =~= deploys_view(old_deploys).push(deploy_record(iv[i as int], j as int)));
                assert(deploys_view(deploys@) =~= before + Seq::new((j + 1) as nat, |x: int| deploy_record(iv[i as int], x)));
            }
            j += 1;
        }
        proof {
            assert(operators_view(ops@) =~= spec_deployed_instances(iv, names)[i as int].operators);
            assert(iv.take(i + 1).drop_last() =~= iv.take(i as int));
            assert(Seq::new(m as nat, |x: int| deploy_record(iv[i as int], x)) =~= Seq::new(
                iv.take(i + 1).last().operators.len(),
                |x: int| deploy_record(iv.take(i + 1).last(), x),
            ));
        }
        result.push(inst.with_operators(ops));
        i += 1;
    }
    proof {
        assert(instances_view(result@) =~= spec_deployed_instances(iv, names));
        assert(iv.take(n as int) =~= iv);
    }
    *instances = result;
    deploys
}


/// Why a schedule could not be carried out.
#[derive(PartialEq, Eq, Structural, Clone, Copy, Debug)]
pub enum ScheduleError {
    /// The scheduler's answer is no list of objects of strings.
    Unreadable,
    /// The answer names an instance or an operator that does not exist.
    UnknownTarget,
    /// An operator is left without a compute node, or its node has no name.
    Unplaced,
}

/// Scheduling the instances with the scheduler's answer, as read: the
/// instances afterwards, and the deployment records or the error. The
/// answer is applied only when it names existing instances and operators,
/// and the operators are deployed only when each has a named node.
pub open spec fn spec_schedule(
    instances: Seq<FlowInstanceView>,
    parsed: Option<Seq<Seq<(Seq<char>, Seq<char>)>>>,
    names: Map<Seq<char>, Seq<char>>,
) -> (Seq<FlowInstanceView>, Result<Seq<FlowInstanceDeployView>, ScheduleError>) {
    match parsed {
        None => (instances, Err(ScheduleError::Unreadable)),
        Some(s) => if !schedule_applicable(instances, s) {
            (instances, Err(ScheduleError::UnknownTarget))
        } else {
            let applied = spec_apply_schedule(instances, s);
            if !deployable(applied, names) {
                (applied, Err(ScheduleError::Unplaced))
            } else {
                (spec_deployed_instances(applied, names), Ok(spec_deploy_records(applied)))
            }
        },
    }
}

/// Reads the scheduler's answer, sends each operator that it names to its
/// compute node, and deploys every operator there; hands back one
/// deployment record per operator.
pub fn schedule_instances(
    instances: &mut Vec<FlowInstance>,
    answer: &str,
    node_map: &StringHashMap<String>,
) -> (r: Result<Vec<FlowInstanceDeploy>, ScheduleError>)
    ensures
        instances_view(final(instances)@) == spec_schedule(
            instances_view(old(instances)@),
            spec_parse_schedule(answer@),
            names_view(node_map@),
        ).0,
        match spec_schedule(instances_view(old(instances)@), spec_parse_schedule(answer@), names_view(node_map@)).1 {
            Ok(d) => r matches Ok(v) && deploys_view(v@) == d,
            Err(e) => r == Err::<Vec<FlowInstanceDeploy>, ScheduleError>(e),
        },
        plain_rendering(answer@) ==> (spec_parse_schedule(answer@) matches Some(s) && reads_rendering(
            answer@,
            s,
        )),
{
    let schedule = match parse_schedule(answer) {
        Some(s) => s,
        None => {
            return Err(ScheduleError::Unreadable);
        },
    };
    if !check_schedule(instances, &schedule) {
        return Err(ScheduleError::UnknownTarget);
    }
    apply_schedule(instances, &schedule);
    if !check_deployable(instances, node_map) {
        return Err(ScheduleError::Unplaced);
    }
    Ok(plan_deployments(instances, node_map))
}

/// The names that a topology's node map holds are the names of its nodes:
/// for each node id, the name of the last node with that id.
pub proof fn law_node_map_names(m: Map<Seq<char>, String>, nodes: Seq<crate::model::topo::ComputeNodeView>)
    requires
        m.dom() == crate::model::topo::spec_node_names(nodes).dom(),
        forall|k: Seq<char>| #[trigger] m.contains_key(k) ==> m[k]@ == crate::model::topo::spec_node_names(nodes)[k],
    ensures
        names_view(m) == crate::model::topo::spec_node_names(nodes),
{
    assert(names_view(m) =~= crate::model::topo::spec_node_names(nodes));
}

} // verus!
