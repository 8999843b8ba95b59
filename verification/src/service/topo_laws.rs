use crate::model::topo::{
    domain_id, domain_index, last_index_map, node_id, node_index, ComputeNodeView,
    EdgeDomainGroupView, EdgeDomainView,
};
use crate::service::topo_order::{
    assigned_domains, has_reached_parent, ordered_node, reached, reached_parent, root_assignment,
    spec_topo_order,
};
use vstd::prelude::*;

verus! {

/// Two lists with the same key at each index have the same index map.
proof fn lemma_same_keys_same_index<T, U>(
    s: Seq<T>,
    ks: spec_fn(T) -> Seq<char>,
    t: Seq<U>,
    kt: spec_fn(U) -> Seq<char>,
)
    requires
        s.len() == t.len(),
        forall|i: int| 0 <= i < s.len() ==> ks(s[i]) == kt(t[i]),
    ensures
        last_index_map(s, ks) == last_index_map(t, kt),
    decreases s.len(),
{
    if s.len() > 0 {
        let ps = s.drop_last();
        let pt = t.drop_last();
        assert forall|i: int| 0 <= i < ps.len() implies ks(ps[i]) == kt(pt[i]) by {
            assert(ps[i] == s[i]);
            assert(pt[i] == t[i]);
        }
        lemma_same_keys_same_index(ps, ks, pt, kt);
    }
}

/// The root assignment reads only the nodes' ids and domains, the edges, and
/// the domains' ids.
proof fn lemma_same_root_assignment(g: EdgeDomainGroupView, h: EdgeDomainGroupView, n: nat)
    requires
        n <= g.compute_nodes.len(),
        g.compute_nodes.len() == h.compute_nodes.len(),
        g.edge_domains.len() == h.edge_domains.len(),
        g.compute_node_edges == h.compute_node_edges,
        domain_index(g.edge_domains) == domain_index(h.edge_domains),
        forall|i: int|
            0 <= i < g.compute_nodes.len() ==> g.compute_nodes[i].id == h.compute_nodes[i].id
                && g.compute_nodes[i].edge_domain_id == h.compute_nodes[i].edge_domain_id,
    ensures
        root_assignment(g, n) == root_assignment(h, n),
    decreases n,
{
    if n == 0 {
        assert(root_assignment(g, 0) =~= root_assignment(h, 0));
    } else {
        lemma_same_root_assignment(g, h, (n - 1) as nat);
    }
}

/// The root assignment has one entry per domain, each a node before `n`.
proof fn lemma_root_assignment_range(g: EdgeDomainGroupView, n: nat)
    requires
        n <= g.compute_nodes.len(),
    ensures
        root_assignment(g, n).len() == g.edge_domains.len(),
        forall|d: int|
            0 <= d < g.edge_domains.len() ==> (#[trigger] root_assignment(g, n)[d] matches Some(i) ==> 0 <= i < n),
    decreases n,
{
    if n > 0 {
        lemma_root_assignment_range(g, (n - 1) as nat);
        crate::model::topo::lemma_domain_index(g.edge_domains, g.compute_nodes[n - 1].edge_domain_id);
    }
}

/// Putting an ordered topology in order again changes nothing.
pub proof fn law_topo_order_idempotent(g: EdgeDomainGroupView)
    requires
        spec_topo_order(g) is Ok,
    ensures
        spec_topo_order(spec_topo_order(g)->Ok_0) == spec_topo_order(g),
{
    let t = spec_topo_order(g)->Ok_0;
    let doms = assigned_domains(g);
    let nodes = g.compute_nodes;
    let edges = g.compute_node_edges;
    assert(t.edge_domains == doms);
    assert(t.compute_node_edges == edges);
    assert(t.compute_nodes.len() == nodes.len());
    assert forall|i: int| 0 <= i < nodes.len() implies t.compute_nodes[i] == ordered_node(doms, nodes, edges, i) by {}
    lemma_same_keys_same_index(
        nodes,
        |n: ComputeNodeView| node_id(n),
        t.compute_nodes,
        |n: ComputeNodeView| node_id(n),
    );
    assert(node_index(nodes) == node_index(t.compute_nodes));
    lemma_same_keys_same_index(
        g.edge_domains,
        |d: EdgeDomainView| domain_id(d),
        doms,
        |d: EdgeDomainView| domain_id(d),
    );
    assert(domain_index(g.edge_domains) == domain_index(doms));
    lemma_same_root_assignment(g, t, nodes.len());
    lemma_root_assignment_range(g, nodes.len());
    assert forall|d: int| 0 <= d < doms.len() implies #[trigger] assigned_domains(t)[d] == doms[d] by {
        match root_assignment(g, nodes.len())[d] {
            Some(i) => {
                assert(t.compute_nodes[i].id == nodes[i].id);
            },
            None => {},
        }
    }
    assert(assigned_domains(t) =~= doms);
    assert forall|i: int| 0 <= i < nodes.len() implies #[trigger] ordered_node(doms, t.compute_nodes, edges, i) == t.compute_nodes[i] by {
        let o = t.compute_nodes[i];
        assert(o == ordered_node(doms, nodes, edges, i));
        assert(o.node_type is Some);
    }
    assert(spec_topo_order(t)->Ok_0.compute_nodes =~= t.compute_nodes);
}

/// After ordering, every node has a type, and the father of a node that the
/// traversal reached is the start of an edge to it from a reached node.
pub proof fn law_ordered_nodes_typed_and_parented(g: EdgeDomainGroupView)
    requires
        spec_topo_order(g) is Ok,
    ensures
        forall|i: int|
            0 <= i < g.compute_nodes.len() ==> (#[trigger] spec_topo_order(g)->Ok_0.compute_nodes[i]).node_type is Some,
        forall|i: int|
            0 <= i < g.compute_nodes.len() && has_reached_parent(
                assigned_domains(g),
                g.compute_node_edges,
                g.compute_nodes[i].id,
            ) && node_index(g.compute_nodes)[g.compute_nodes[i].id] == i ==> exists|j: int|
                0 <= j < g.compute_node_edges.len() && reached(
                    assigned_domains(g),
                    g.compute_node_edges,
                    g.compute_node_edges[j].id1,
                ) && g.compute_node_edges[j].id2 == g.compute_nodes[i].id
                    && (#[trigger] spec_topo_order(g)->Ok_0.compute_nodes[i]).father_hostname == Some(
                    g.compute_node_edges[j].id1,
                ),
{
    let doms = assigned_domains(g);
    let edges = g.compute_node_edges;
    assert forall|i: int|
        0 <= i < g.compute_nodes.len() && has_reached_parent(doms, edges, g.compute_nodes[i].id)
            && node_index(g.compute_nodes)[g.compute_nodes[i].id] == i implies exists|j: int|
        0 <= j < edges.len() && reached(doms, edges, edges[j].id1) && edges[j].id2 == g.compute_nodes[i].id
            && (#[trigger] spec_topo_order(g)->Ok_0.compute_nodes[i]).father_hostname == Some(edges[j].id1) by {
        let x = g.compute_nodes[i].id;
        let j = choose|j: int| 0 <= j < edges.len() && reached(doms, edges, edges[j].id1) && #[trigger] edges[j].id2 == x;
        assert(reached_parent(doms, edges, x) == edges[j].id1);
    }
}

/// Putting a topology in order changes only the domains' roots and the
/// nodes' types and parents: the domains keep their ids, names and cloud
/// flags, every node keeps the id, name, slot and domain of the node at the
/// same index, and the edges stay as they are.
pub proof fn law_topo_order_keeps_identities(g: EdgeDomainGroupView)
    requires
        spec_topo_order(g) is Ok,
    ensures
        ({
            let t = spec_topo_order(g)->Ok_0;
            &&& t.edge_domains.len() == g.edge_domains.len()
            &&& forall|d: int|
                0 <= d < g.edge_domains.len() ==> {
                    &&& (#[trigger] t.edge_domains[d]).id == g.edge_domains[d].id
                    &&& t.edge_domains[d].name == g.edge_domains[d].name
                    &&& t.edge_domains[d].is_cloud == g.edge_domains[d].is_cloud
                }
            &&& t.compute_nodes.len() == g.compute_nodes.len()
            &&& forall|i: int|
                0 <= i < g.compute_nodes.len() ==> {
                    &&& (#[trigger] t.compute_nodes[i]).id == g.compute_nodes[i].id
                    &&& t.compute_nodes[i].name == g.compute_nodes[i].name
                    &&& t.compute_nodes[i].slot == g.compute_nodes[i].slot
                    &&& t.compute_nodes[i].edge_domain_id == g.compute_nodes[i].edge_domain_id
                }
            &&& t.compute_node_edges == g.compute_node_edges
        }),
{
}

} // verus!
