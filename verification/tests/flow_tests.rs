use acbot_edge::error::ServiceError;
use acbot_edge::model::flow::{FlowDefOrigin, FlowInstance, FlowLink, FlowOperator, ParamDef};
use acbot_edge::model::monitor::{Host, MonitorConfig};
use acbot_edge::model::topo::{ComputeNode, EdgeDomainGroup};
use acbot_edge::service::flow_plan::{
    apply_schedule, build_flow_instance, check_deployable, check_links, check_schedule,
    normalize_operator_type, parse_schedule, plan_deployments, schedule_instances, ScheduleError,
};
use acbot_edge::service::flow_service::FlowService;
use acbot_edge::strategy::{message_kind, parse_strategy, strategy_kind, MessageKind, StrategyKind};
use acbot_edge::text::{parse_auth, str_eq};

fn param(name: &str, stream: &str) -> ParamDef {
    ParamDef { name: name.to_string(), bind_stream: stream.to_string() }
}

fn op(id: u32, ty: &str) -> FlowOperator {
    FlowOperator {
        id,
        name: format!("op{}", id),
        operator_id: format!("operator-{}", id),
        operator_type: ty.to_string(),
        params: vec![param("in", &format!("in{}", id))],
        returns: vec![param("out", &format!("out{}", id)), param("out2", &format!("aux{}", id))],
        host_constraint: None,
        node_selector_host: None,
        communicate_by_ip: None,
    }
}

fn instance(id: &str, ops: Vec<FlowOperator>) -> FlowInstance {
    FlowInstance {
        instance_id: id.to_string(),
        version: "1".to_string(),
        robot_id: "robot".to_string(),
        edge_device_id: "device".to_string(),
        operators: ops,
        streams: vec![],
    }
}

fn service() -> FlowService {
    FlowService::new()
        .set_state(vec![
            instance("a-1", vec![op(1, "source"), op(2, "operator"), op(3, "sink"), op(4, "unknown")]),
            instance("b", vec![op(1, "sink")]),
        ])
        .ok()
        .unwrap()
}

#[test]
fn auth_strings_are_split_from_the_right() {
    assert_eq!(parse_auth("a-1-x-3"), Some((3, "a-1".to_string())));
    assert_eq!(parse_auth("inst-part-12"), Some((12, "inst".to_string())));
    assert_eq!(parse_auth("--7"), Some((7, "".to_string())));
    assert_eq!(parse_auth("x-y-+7"), Some((7, "x".to_string())));
    assert_eq!(parse_auth("no-dash3"), None);
    assert_eq!(parse_auth("plain"), None);
    assert_eq!(parse_auth("a-b-c"), None);
    assert_eq!(parse_auth("a-b-4294967296"), None);
}

#[test]
fn operator_numbers_parse_like_std() {
    assert_eq!(parse_auth("i-p-42"), Some((42, "i".to_string())));
    assert_eq!(parse_auth("i-p-007"), Some((7, "i".to_string())));
    assert_eq!(parse_auth("i-p-"), None);
    assert_eq!(parse_auth("i-p-+"), None);
    assert_eq!(parse_auth("i-p- 1"), None);
    assert_eq!(parse_auth("i-p-4294967295"), Some((u32::MAX, "i".to_string())));
}

#[test]
fn strings_compare_by_characters() {
    assert!(str_eq("边缘", "边缘"));
    assert!(!str_eq("ab", "abc"));
    assert!(!str_eq("ab", "ac"));
}

#[test]
fn operators_are_classified() {
    let svc = service();
    assert_eq!(svc.is_sink(&"a-1-x-3".to_string()), Ok(true));
    assert_eq!(svc.is_sink(&"a-1-x-1".to_string()), Ok(false));
    assert_eq!(svc.is_sink(&"a-1-x-2".to_string()), Ok(false));
    assert_eq!(svc.is_sink(&"a-1-x-4".to_string()), Err(ServiceError::Flow));
    assert_eq!(svc.is_sink(&"a-1-x-9".to_string()), Err(ServiceError::Flow));
    assert_eq!(svc.is_sink(&"c-x-1".to_string()), Err(ServiceError::Flow));
    assert_eq!(svc.is_sink(&"b-x-1".to_string()), Ok(true));
    assert_eq!(FlowService::new().is_sink(&"b-x-1".to_string()), Err(ServiceError::Flow));
}

fn origin(links: Vec<FlowLink>) -> FlowDefOrigin {
    FlowDefOrigin {
        version: "2".to_string(),
        robot_id: "r".to_string(),
        edge_device_id: "e".to_string(),
        roles: vec![op(1, "Source"), op(2, "Transform"), op(3, "SINK")],
        links,
    }
}

fn link(a: u32, ap: u32, b: u32, bp: u32) -> FlowLink {
    FlowLink { from_role_id: a, from_role_output_port: ap, to_role_id: b, to_role_input_port: bp }
}

#[test]
fn flow_definitions_become_instances() {
    let d = origin(vec![link(1, 0, 2, 0), link(2, 1, 3, 0)]);
    assert!(check_links(&d));
    let inst = build_flow_instance("inst".to_string(), d);
    assert_eq!(inst.instance_id, "inst");
    assert_eq!(inst.version, "2");
    let types: Vec<&str> = inst.operators.iter().map(|o| o.operator_type.as_str()).collect();
    assert_eq!(types, vec!["source", "operator", "sink"]);
    assert_eq!(inst.streams.len(), 2);
    assert_eq!(inst.streams[0].from_operator_output_stream, "out1");
    assert_eq!(inst.streams[0].to_operator_input_stream, "in2");
    assert_eq!(inst.streams[1].from_operator_id, 2);
    assert_eq!(inst.streams[1].from_operator_output_stream, "aux2");
    assert_eq!(inst.streams[1].to_operator_id, 3);
    assert_eq!(inst.streams[1].to_operator_input_stream, "in3");
}

#[test]
fn links_that_name_missing_roles_or_ports_are_found() {
    assert!(!check_links(&origin(vec![link(0, 0, 2, 0)])));
    assert!(!check_links(&origin(vec![link(1, 0, 4, 0)])));
    assert!(!check_links(&origin(vec![link(1, 2, 2, 0)])));
    assert!(!check_links(&origin(vec![link(1, 0, 2, 1)])));
    assert!(check_links(&origin(vec![])));
}

#[test]
fn operator_types_are_lowered() {
    assert_eq!(normalize_operator_type("TRANSFORM"), "operator");
    assert_eq!(normalize_operator_type("Sink"), "sink");
    assert_eq!(normalize_operator_type("operator"), "operator");
}

#[test]
fn schedules_are_read_in_key_order() {
    let s = parse_schedule(r#"[{"2":"n2","1":"n1"},{}]"#).unwrap();
    assert_eq!(s, vec![vec![("1".to_string(), "n1".to_string()), ("2".to_string(), "n2".to_string())], vec![]]);
    assert_eq!(parse_schedule("not json"), None);
    assert_eq!(parse_schedule(r#"{"1":"n1"}"#), None);
}

fn pair(a: &str, b: &str) -> (String, String) {
    (a.to_string(), b.to_string())
}

#[test]
fn schedules_assign_compute_nodes() {
    let mut instances = vec![instance("a", vec![op(1, "source"), op(2, "sink")]), instance("b", vec![op(1, "sink")])];
    let schedule = vec![vec![pair("2", "h2"), pair("1", "h1"), pair("02", "h3")]];
    assert!(check_schedule(&instances, &schedule));
    apply_schedule(&mut instances, &schedule);
    assert_eq!(instances[0].operators[0].host_constraint, Some("h1".to_string()));
    assert_eq!(instances[0].operators[1].host_constraint, Some("h3".to_string()));
    assert_eq!(instances[1].operators[0].host_constraint, None);
}

#[test]
fn schedules_that_do_not_apply_are_found() {
    let instances = vec![instance("a", vec![op(1, "source")])];
    assert!(!check_schedule(&instances, &vec![vec![pair("0", "h")]]));
    assert!(!check_schedule(&instances, &vec![vec![pair("2", "h")]]));
    assert!(!check_schedule(&instances, &vec![vec![pair("x", "h")]]));
    assert!(!check_schedule(&instances, &vec![vec![], vec![]]));
    assert!(check_schedule(&instances, &vec![]));
}

fn topology() -> EdgeDomainGroup {
    let node = |id: &str, name: &str| ComputeNode {
        id: id.to_string(),
        name: name.to_string(),
        slot: 1,
        edge_domain_id: "d".to_string(),
        father_hostname: None,
        node_type: None,
    };
    EdgeDomainGroup { edge_domains: vec![], compute_nodes: vec![node("h1", "host-one"), node("h2", "host-two")], compute_node_edges: vec![] }
}

#[test]
fn deployments_are_planned_per_operator() {
    let names = topology().node_map();
    let mut instances = vec![instance("a", vec![op(1, "source"), op(2, "sink")]), instance("b", vec![op(5, "sink")])];
    instances[0].operators[0].host_constraint = Some("h1".to_string());
    instances[0].operators[1].host_constraint = Some("h2".to_string());
    instances[1].operators[0].host_constraint = Some("h1".to_string());
    assert!(check_deployable(&instances, &names));
    let deploys = plan_deployments(&mut instances, &names);
    assert_eq!(deploys.len(), 3);
    assert_eq!(deploys[1].id, "a");
    assert_eq!(deploys[1].operator_index, 2);
    assert_eq!(deploys[1].operator_id, "operator-2");
    assert_eq!(deploys[1].compute_node_id, "h2");
    assert_eq!(deploys[2].id, "b");
    assert_eq!(deploys[2].operator_index, 5);
    assert_eq!(instances[0].operators[1].node_selector_host, Some("host-two".to_string()));
    assert_eq!(instances[1].operators[0].node_selector_host, Some("host-one".to_string()));
    assert_eq!(instances[1].operators[0].communicate_by_ip, Some(true));
}

#[test]
fn undeployable_operators_are_found() {
    let names = topology().node_map();
    let mut instances = vec![instance("a", vec![op(1, "source")])];
    assert!(!check_deployable(&instances, &names));
    instances[0].operators[0].host_constraint = Some("h9".to_string());
    assert!(!check_deployable(&instances, &names));
}

#[test]
fn monitor_types_and_messages_are_recognized() {
    assert_eq!(strategy_kind("NetEdge"), Some(StrategyKind::NetEdge));
    assert_eq!(strategy_kind("FlowEdge"), Some(StrategyKind::FlowEdge));
    assert_eq!(strategy_kind("Other"), None);
    assert_eq!(parse_strategy(&"FlowEdge".to_string()), StrategyKind::FlowEdge);
    assert_eq!(message_kind("NetInfo"), Some(MessageKind::NetInfo));
    assert_eq!(message_kind("SetTarget"), Some(MessageKind::SetTarget));
    assert_eq!(message_kind("Unknown"), None);
}

#[test]
fn monitor_config_starts_empty_and_takes_targets() {
    let mut config = MonitorConfig::new();
    assert!(config.targets.is_empty());
    assert_eq!(config.self_host.id, "");
    assert!(!config.cross_domain);
    let host = |id: &str| Host { id: id.to_string(), name: id.to_string(), domain_id: "d".to_string() };
    let mut more = vec![host("a"), host("b")];
    config.add_targets(&mut more);
    let mut again = vec![host("c")];
    config.add_targets(&mut again);
    let ids: Vec<&str> = config.targets.iter().map(|h| h.id.as_str()).collect();
    assert_eq!(ids, vec!["a", "b", "c"]);
    assert!(more.is_empty());
}

#[test]
fn scheduler_answers_are_carried_out() {
    let names = topology().node_map();
    let mut instances = vec![instance("a", vec![op(1, "source"), op(2, "sink")]), instance("b", vec![op(5, "sink")])];
    let deploys = schedule_instances(&mut instances, r#"[{"2":"h2","1":"h1"},{"1":"h1"}]"#, &names).unwrap();
    assert_eq!(deploys.len(), 3);
    assert_eq!(deploys[0].compute_node_id, "h1");
    assert_eq!(deploys[1].compute_node_id, "h2");
    assert_eq!(deploys[2].id, "b");
    assert_eq!(deploys[2].operator_index, 5);
    assert_eq!(instances[0].operators[1].host_constraint, Some("h2".to_string()));
    assert_eq!(instances[0].operators[1].node_selector_host, Some("host-two".to_string()));
    assert_eq!(instances[1].operators[0].node_selector_host, Some("host-one".to_string()));
}

#[test]
fn carried_out_schedules_keep_the_flow_and_place_every_operator() {
    let names = topology().node_map();
    let before = vec![instance("a", vec![op(1, "source"), op(2, "sink")]), instance("b", vec![op(5, "sink")])];
    let mut instances = vec![instance("a", vec![op(1, "source"), op(2, "sink")]), instance("b", vec![op(5, "sink")])];
    let deploys = schedule_instances(&mut instances, r#"[{"1":"h2","2":"h1"},{"1":"h2"}]"#, &names).unwrap();
    let mut count = 0;
    for (i, inst) in instances.iter().enumerate() {
        assert_eq!(inst.instance_id, before[i].instance_id);
        assert_eq!(inst.operators.len(), before[i].operators.len());
        for (m, o) in inst.operators.iter().enumerate() {
            assert_eq!(o.id, before[i].operators[m].id);
            assert_eq!(o.operator_type, before[i].operators[m].operator_type);
            let host = o.host_constraint.clone().unwrap();
            let name = if host == "h1" { "host-one" } else { "host-two" };
            assert_eq!(o.node_selector_host, Some(name.to_string()));
            assert_eq!(o.communicate_by_ip, Some(true));
            assert!(deploys.iter().any(|d| d.id == inst.instance_id && d.operator_index == o.id && d.compute_node_id == host));
            count += 1;
        }
    }
    assert_eq!(deploys.len(), count);
}

#[test]
fn scheduler_answers_that_cannot_be_carried_out_are_refused() {
    let names = topology().node_map();
    let fresh = || vec![instance("a", vec![op(1, "source"), op(2, "sink")])];
    let mut instances = fresh();
    assert_eq!(schedule_instances(&mut instances, "not json", &names).err(), Some(ScheduleError::Unreadable));
    assert_eq!(instances[0].operators[0].host_constraint, None);
    let mut instances = fresh();
    assert_eq!(schedule_instances(&mut instances, r#"[{"3":"h1"}]"#, &names).err(), Some(ScheduleError::UnknownTarget));
    assert_eq!(instances[0].operators[0].host_constraint, None);
    let mut instances = fresh();
    assert_eq!(schedule_instances(&mut instances, r#"[{"1":"h1"},{"1":"h1"}]"#, &names).err(), Some(ScheduleError::UnknownTarget));
    let mut instances = fresh();
    assert_eq!(schedule_instances(&mut instances, r#"[{"1":"h1"}]"#, &names).err(), Some(ScheduleError::Unplaced));
    assert_eq!(instances[0].operators[0].host_constraint, Some("h1".to_string()));
    let mut instances = fresh();
    assert_eq!(schedule_instances(&mut instances, r#"[{"1":"h1","2":"h9"}]"#, &names).err(), Some(ScheduleError::Unplaced));
}
