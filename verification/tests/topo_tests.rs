use acbot_edge::model::topo::{bool_from_int, ComputeNode, ComputeNodeEdge, EdgeDomain, EdgeDomainGroup};
use acbot_edge::service::topo_order::{compute_topo_order, TopoError};
use acbot_edge::service::topo_service::{PayloadField, TopoPayload, TopoService};
use acbot_edge::error::ServiceError;

fn domain(id: &str, is_cloud: bool, root: Option<&str>) -> EdgeDomain {
    EdgeDomain { id: id.to_string(), name: format!("domain {}", id), is_cloud, root_node_id: root.map(|r| r.to_string()) }
}

fn node(id: &str, domain: &str) -> ComputeNode {
    ComputeNode {
        id: id.to_string(),
        name: format!("host-{}", id),
        slot: 4,
        edge_domain_id: domain.to_string(),
        father_hostname: None,
        node_type: None,
    }
}

fn edge(a: &str, b: &str) -> ComputeNodeEdge {
    ComputeNodeEdge { compute_node_id1: a.to_string(), compute_node_id2: b.to_string() }
}

fn sample() -> EdgeDomainGroup {
    EdgeDomainGroup {
        edge_domains: vec![domain("d1", false, None), domain("cloud", true, None)],
        compute_nodes: vec![node("n1", "d1"), node("n2", "d1"), node("n3", "d1"), node("n4", "d1"), node("c1", "cloud")],
        compute_node_edges: vec![edge("n1", "n2"), edge("n1", "n3"), edge("n2", "n4")],
    }
}

fn types(g: &EdgeDomainGroup) -> Vec<Option<String>> {
    g.compute_nodes.iter().map(|n| n.node_type.clone()).collect()
}

fn fathers(g: &EdgeDomainGroup) -> Vec<Option<String>> {
    g.compute_nodes.iter().map(|n| n.father_hostname.clone()).collect()
}

fn s(x: &str) -> Option<String> {
    Some(x.to_string())
}

#[test]
fn topology_is_ordered_from_the_domain_roots() {
    let t = compute_topo_order(&sample()).unwrap();
    assert_eq!(t.edge_domains[0].root_node_id, s("n1"));
    assert_eq!(t.edge_domains[1].root_node_id, s("c1"));
    assert_eq!(types(&t), vec![s("non-leaf"), s("non-leaf"), s("leaf"), s("leaf"), s("cloud")]);
    assert_eq!(fathers(&t), vec![None, s("n1"), s("n1"), s("n2"), None]);
    assert_eq!(t.compute_node_edges.len(), 3);
    assert_eq!(t.compute_nodes[4].name, "host-c1");
}

#[test]
fn ordering_twice_changes_nothing() {
    let t = compute_topo_order(&sample()).unwrap();
    let u = compute_topo_order(&t).unwrap();
    assert_eq!(types(&t), types(&u));
    assert_eq!(fathers(&t), fathers(&u));
    assert_eq!(t.edge_domains[0].root_node_id, u.edge_domains[0].root_node_id);
}

#[test]
fn a_node_type_that_is_set_stays_on_unreached_nodes() {
    let mut g = sample();
    g.compute_nodes[4].node_type = s("gateway");
    let t = compute_topo_order(&g).unwrap();
    assert_eq!(t.compute_nodes[4].node_type, s("gateway"));
}

#[test]
fn a_later_root_candidate_replaces_an_earlier_one() {
    let g = EdgeDomainGroup {
        edge_domains: vec![domain("d1", false, None)],
        compute_nodes: vec![node("a", "d1"), node("b", "d1")],
        compute_node_edges: vec![],
    };
    let t = compute_topo_order(&g).unwrap();
    assert_eq!(t.edge_domains[0].root_node_id, s("b"));
    assert_eq!(types(&t), vec![s("cloud"), s("leaf")]);
}

#[test]
fn a_domain_keeps_its_root_when_no_node_is_assigned() {
    let g = EdgeDomainGroup {
        edge_domains: vec![domain("d1", false, Some("b")), domain("d2", true, None)],
        compute_nodes: vec![node("a", "d2"), node("b", "d2")],
        compute_node_edges: vec![edge("a", "b")],
    };
    let t = compute_topo_order(&g).unwrap();
    assert_eq!(t.edge_domains[0].root_node_id, s("b"));
    assert_eq!(t.edge_domains[1].root_node_id, s("a"));
    assert_eq!(types(&t), vec![s("cloud"), s("leaf")]);
    assert_eq!(fathers(&t), vec![None, None]);
}

#[test]
fn an_edge_to_an_unknown_node_fails() {
    let mut g = sample();
    g.compute_node_edges.push(edge("n1", "nowhere"));
    assert_eq!(compute_topo_order(&g).err(), Some(TopoError::UnknownEdgeEndpoint));
    let mut g = sample();
    g.compute_node_edges.push(edge("nowhere", "n1"));
    assert_eq!(compute_topo_order(&g).err(), Some(TopoError::UnknownEdgeEndpoint));
}

#[test]
fn a_root_in_an_unknown_domain_fails() {
    let mut g = sample();
    g.compute_nodes.push(node("x", "missing"));
    assert_eq!(compute_topo_order(&g).err(), Some(TopoError::UnknownDomain));
}

#[test]
fn a_node_reached_twice_breaks_the_traversal() {
    let mut g = sample();
    g.compute_node_edges.push(edge("n3", "n4"));
    assert_eq!(compute_topo_order(&g).err(), Some(TopoError::BrokenTraversal));
}

#[test]
fn a_non_cloud_domain_without_root_breaks_the_traversal() {
    let mut g = sample();
    g.edge_domains.push(domain("empty", false, None));
    assert_eq!(compute_topo_order(&g).err(), Some(TopoError::BrokenTraversal));
    let mut g = sample();
    g.edge_domains.push(domain("ghost", false, Some("nobody")));
    assert_eq!(compute_topo_order(&g).err(), Some(TopoError::BrokenTraversal));
}

#[test]
fn node_map_maps_ids_to_names_last_wins() {
    let mut g = sample();
    let mut dup = node("n1", "d1");
    dup.name = "renamed".to_string();
    g.compute_nodes.push(dup);
    let m = g.node_map();
    assert_eq!(m.get("n1"), Some(&"renamed".to_string()));
    assert_eq!(m.get("c1"), Some(&"host-c1".to_string()));
    assert_eq!(m.get("zz"), None);
    assert_eq!(m.len(), 5);
}

#[test]
fn new_group_is_empty() {
    let g = EdgeDomainGroup::new();
    assert!(g.edge_domains.is_empty() && g.compute_nodes.is_empty() && g.compute_node_edges.is_empty());
}

#[test]
fn integers_read_as_booleans() {
    assert_eq!(bool_from_int(0), Some(false));
    assert_eq!(bool_from_int(1), Some(true));
    assert_eq!(bool_from_int(2), None);
    assert_eq!(bool_from_int(-1), None);
}

fn payload() -> TopoPayload {
    let g = sample();
    TopoPayload::Object {
        edge_domains: PayloadField::Parsed(g.edge_domains),
        compute_nodes: PayloadField::Parsed(g.compute_nodes),
        compute_node_edges: PayloadField::Parsed(g.compute_node_edges),
    }
}

#[test]
fn payloads_are_parsed_or_refused() {
    let svc = TopoService::new().parse(payload()).ok().unwrap();
    assert_eq!(svc.state.as_ref().unwrap().compute_nodes.len(), 5);
    assert_eq!(TopoService::new().parse(TopoPayload::NotObject).err(), Some(ServiceError::Format));
    let missing = TopoPayload::Object {
        edge_domains: PayloadField::Parsed(vec![]),
        compute_nodes: PayloadField::Missing,
        compute_node_edges: PayloadField::Malformed,
    };
    assert_eq!(TopoService::new().parse(missing).err(), Some(ServiceError::KeyNotFound));
    let malformed = TopoPayload::Object {
        edge_domains: PayloadField::Malformed,
        compute_nodes: PayloadField::Missing,
        compute_node_edges: PayloadField::Missing,
    };
    assert_eq!(TopoService::new().parse(malformed).err(), Some(ServiceError::Format));
}

#[test]
fn the_service_orders_its_topology() {
    assert_eq!(TopoService::new().try_calc_topo_order().err(), Some(TopoError::MissingState));
    let svc = TopoService::new().parse(payload()).ok().unwrap();
    let svc = svc.calc_topo_order().ok().unwrap();
    let t = svc.state.unwrap();
    assert_eq!(types(&t)[0], s("non-leaf"));
    let mut g = sample();
    g.compute_node_edges.push(edge("n4", "n1"));
    let svc = TopoService { state: Some(g) };
    assert_eq!(svc.try_calc_topo_order().err(), Some(TopoError::BrokenTraversal));
}

#[test]
fn error_messages() {
    assert_eq!(ServiceError::KeyNotFound.message(), "传入数据键缺失");
    assert_eq!(ServiceError::Format.message(), "格式错误");
    assert_eq!(ServiceError::Flow.message(), "计算图交互错误");
}
