use crate::model::topo::{
    clone_opt, domains_view, edges_view, nodes_view, ComputeNode, ComputeNodeEdge, domain_id, domain_index, last_index_map, lemma_domain_index, lemma_node_index,
    node_id, node_index, ComputeNodeEdgeView, ComputeNodeView, EdgeDomain, EdgeDomainGroup,
    EdgeDomainGroupView, EdgeDomainView,
};
use vstd::hash_map::StringHashMap;
use vstd::prelude::*;
use vstd::string::*;

verus! {

/// Why a topology cannot be put in order.
#[derive(PartialEq, Eq, Structural, Clone, Copy, Debug)]
pub enum TopoError {
    /// The service holds no topology.
    MissingState,
    /// An edge names a node that does not exist.
    UnknownEdgeEndpoint,
    /// A node without incoming edges names a domain that does not exist.
    UnknownDomain,
    /// The traversal from the domains' roots does not form a forest: a
    /// non-cloud domain has no root, a root is no node, or a node is reached
    /// twice.
    BrokenTraversal,
}

/// Every edge names existing nodes at both ends.
pub open spec fn edges_resolve(g: EdgeDomainGroupView) -> bool {
    forall|j: int|
        #![trigger g.compute_node_edges[j]]
        0 <= j < g.compute_node_edges.len() ==> {
            &&& node_index(g.compute_nodes).contains_key(g.compute_node_edges[j].id1)
            &&& node_index(g.compute_nodes).contains_key(g.compute_node_edges[j].id2)
        }
}

/// Some edge ends at the node with id `id`.
pub open spec fn has_incoming(edges: Seq<ComputeNodeEdgeView>, id: Seq<char>) -> bool {
    exists|j: int| 0 <= j < edges.len() && #[trigger] edges[j].id2 == id
}

/// Some edge starts at the node with id `id`.
pub open spec fn has_outgoing(edges: Seq<ComputeNodeEdgeView>, id: Seq<char>) -> bool {
    exists|j: int| 0 <= j < edges.len() && #[trigger] edges[j].id1 == id
}

/// Every node without incoming edges names an existing domain.
pub open spec fn roots_resolve(g: EdgeDomainGroupView) -> bool {
    forall|i: int|
        #![trigger g.compute_nodes[i]]
        0 <= i < g.compute_nodes.len() && !has_incoming(g.compute_node_edges, g.compute_nodes[i].id)
            ==> domain_index(g.edge_domains).contains_key(g.compute_nodes[i].edge_domain_id)
}

/// For each domain, the node that the first `n` nodes make its root: each
/// node without incoming edges becomes the root of its domain, and a later
/// node replaces an earlier one.
pub open spec fn root_assignment(g: EdgeDomainGroupView, n: nat) -> Seq<Option<int>>
    decreases n,
{
    if n == 0 {
        Seq::new(g.edge_domains.len(), |d: int| None::<int>)
    } else {
        let prev = root_assignment(g, (n - 1) as nat);
        let node = g.compute_nodes[n - 1];
        if !has_incoming(g.compute_node_edges, node.id) && domain_index(
            g.edge_domains,
        ).contains_key(node.edge_domain_id) {
            prev.update(domain_index(g.edge_domains)[node.edge_domain_id], Some(n - 1))
        } else {
            prev
        }
    }
}

/// The domains once each has the root that the nodes assign to it; a domain
/// that no node is assigned to keeps its root.
pub open spec fn assigned_domains(g: EdgeDomainGroupView) -> Seq<EdgeDomainView> {
    Seq::new(
        g.edge_domains.len(),
        |d: int|
            match root_assignment(g, g.compute_nodes.len())[d] {
                Some(i) => EdgeDomainView {
                    root_node_id: Some(g.compute_nodes[i].id),
                    ..g.edge_domains[d]
                },
                None => g.edge_domains[d],
            },
    )
}


/// One visit of the traversal: the root of a domain, or the end of an edge.
pub enum Visit {
    Root(int),
    Edge(int),
}

/// The node id that a visit reaches.
pub open spec fn visit_id(doms: Seq<EdgeDomainView>, edges: Seq<ComputeNodeEdgeView>, v: Visit) -> Seq<char> {
    match v {
        Visit::Root(d) => doms[d].root_node_id->0,
        Visit::Edge(j) => edges[j].id2,
    }
}

/// The set `s` holds the root of every non-cloud domain and is closed under
/// the edges.
pub open spec fn closed_under(doms: Seq<EdgeDomainView>, edges: Seq<ComputeNodeEdgeView>, s: Set<Seq<char>>) -> bool {
    &&& forall|d: int|
        0 <= d < doms.len() && !doms[d].is_cloud && doms[d].root_node_id is Some
            ==> s.contains(#[trigger] doms[d].root_node_id->0)
    &&& forall|j: int|
        0 <= j < edges.len() && s.contains(#[trigger] edges[j].id1) ==> s.contains(edges[j].id2)
}

/// The node id `x` is reached from the roots of the non-cloud domains by
/// following edges.
pub open spec fn reached(doms: Seq<EdgeDomainView>, edges: Seq<ComputeNodeEdgeView>, x: Seq<char>) -> bool {
    forall|s: Set<Seq<char>>| #[trigger] closed_under(doms, edges, s) ==> s.contains(x)
}

/// The visits of the traversal: each non-cloud domain's root, and the end of
/// each edge that starts at a reached node.
pub open spec fn is_visit(doms: Seq<EdgeDomainView>, edges: Seq<ComputeNodeEdgeView>, v: Visit) -> bool {
    match v {
        Visit::Root(d) => 0 <= d < doms.len() && !doms[d].is_cloud,
        Visit::Edge(j) => 0 <= j < edges.len() && reached(doms, edges, edges[j].id1),
    }
}

/// Every non-cloud domain has a root, and the root is a node.
pub open spec fn roots_present(doms: Seq<EdgeDomainView>, nodes: Seq<ComputeNodeView>) -> bool {
    forall|d: int|
        0 <= d < doms.len() && !(#[trigger] doms[d]).is_cloud ==> {
            &&& doms[d].root_node_id is Some
            &&& node_index(nodes).contains_key(doms[d].root_node_id->0)
        }
}

/// No node is visited twice: the reached part of the graph is a forest whose
/// roots are the domains' roots.
pub open spec fn visits_distinct(doms: Seq<EdgeDomainView>, edges: Seq<ComputeNodeEdgeView>) -> bool {
    forall|v: Visit, w: Visit|
        #![trigger visit_id(doms, edges, v), visit_id(doms, edges, w)]
        is_visit(doms, edges, v) && is_visit(doms, edges, w) && visit_id(doms, edges, v) == visit_id(
            doms,
            edges,
            w,
        ) ==> v == w
}

/// The traversal from the domains' roots visits each node at most once.
pub open spec fn traversal_ok(
    doms: Seq<EdgeDomainView>,
    nodes: Seq<ComputeNodeView>,
    edges: Seq<ComputeNodeEdgeView>,
) -> bool {
    roots_present(doms, nodes) && visits_distinct(doms, edges)
}

/// Some edge from a reached node ends at `x`.
pub open spec fn has_reached_parent(doms: Seq<EdgeDomainView>, edges: Seq<ComputeNodeEdgeView>, x: Seq<char>) -> bool {
    exists|j: int| 0 <= j < edges.len() && reached(doms, edges, edges[j].id1) && #[trigger] edges[j].id2 == x
}

/// The start of the edge from a reached node that ends at `x`.
pub open spec fn reached_parent(doms: Seq<EdgeDomainView>, edges: Seq<ComputeNodeEdgeView>, x: Seq<char>) -> Seq<char> {
    let j = choose|j: int| 0 <= j < edges.len() && reached(doms, edges, edges[j].id1) && #[trigger] edges[j].id2 == x;
    edges[j].id1
}

/// Node `i` once the traversal has run: the last node with a reached id is a
/// leaf when no edge starts at it and a non-leaf otherwise, and its father is
/// the node whose edge reached it; a node without a type is then a cloud node.
pub open spec fn ordered_node(
    doms: Seq<EdgeDomainView>,
    nodes: Seq<ComputeNodeView>,
    edges: Seq<ComputeNodeEdgeView>,
    i: int,
) -> ComputeNodeView {
    let n = nodes[i];
    let canonical = node_index(nodes)[n.id] == i;
    let node_type = if canonical && reached(doms, edges, n.id) {
        Some(
            if has_outgoing(edges, n.id) {
                "non-leaf"@
            } else {
                "leaf"@
            },
        )
    } else if n.node_type is None {
        Some("cloud"@)
    } else {
        n.node_type
    };
    let father_hostname = if canonical && has_reached_parent(doms, edges, n.id) {
        Some(reached_parent(doms, edges, n.id))
    } else {
        n.father_hostname
    };
    ComputeNodeView { node_type, father_hostname, ..n }
}

/// The topology in order, or why it cannot be put in order.
pub open spec fn spec_topo_order(g: EdgeDomainGroupView) -> Result<EdgeDomainGroupView, TopoError> {
    if !edges_resolve(g) {
        Err(TopoError::UnknownEdgeEndpoint)
    } else if !roots_resolve(g) {
        Err(TopoError::UnknownDomain)
    } else {
        let doms = assigned_domains(g);
        if !traversal_ok(doms, g.compute_nodes, g.compute_node_edges) {
            Err(TopoError::BrokenTraversal)
        } else {
            Ok(
                EdgeDomainGroupView {
                    edge_domains: doms,
                    compute_nodes: Seq::new(
                        g.compute_nodes.len(),
                        |i: int| ordered_node(doms, g.compute_nodes, g.compute_node_edges, i),
                    ),
                    compute_node_edges: g.compute_node_edges,
                },
            )
        }
    }
}


/// The exec map agrees with the spec index.
pub open spec fn index_matches(m: Map<Seq<char>, usize>, im: Map<Seq<char>, int>) -> bool {
    &&& forall|k: Seq<char>| #[trigger] m.contains_key(k) == im.contains_key(k)
    &&& forall|k: Seq<char>| m.contains_key(k) ==> #[trigger] m[k] as int == im[k]
}

/// Maps each node id to the index of the last node with that id.
fn index_nodes(g: &EdgeDomainGroup) -> (m: StringHashMap<usize>)
    ensures
        index_matches(m@, node_index(g@.compute_nodes)),
{
    let mut map: StringHashMap<usize> = StringHashMap::new();
    let ghost nodes = g@.compute_nodes;
    let ghost key = |n: ComputeNodeView| node_id(n);
    let n = g.compute_nodes.len();
    let mut i: usize = 0;
    while i < n
        invariant
            n == g.compute_nodes@.len(),
            nodes == g@.compute_nodes,
            key == (|n: ComputeNodeView| node_id(n)),
            i <= n,
            index_matches(map@, last_index_map(nodes.take(i as int), key)),
        decreases n - i,
    {
        map.insert(g.compute_nodes[i].id.clone(), i);
        proof {
            let q = nodes.take(i + 1);
            assert(q.drop_last() =~= nodes.take(i as int));
        }
        i += 1;
    }
    proof {
        assert(nodes.take(n as int) =~= nodes);
    }
    map
}

/// Maps each domain id to the index of the last domain with that id.
fn index_domains(g: &EdgeDomainGroup) -> (m: StringHashMap<usize>)
    ensures
        index_matches(m@, domain_index(g@.edge_domains)),
{
    let mut map: StringHashMap<usize> = StringHashMap::new();
    let ghost doms = g@.edge_domains;
    let ghost key = |d: EdgeDomainView| domain_id(d);
    let n = g.edge_domains.len();
    let mut i: usize = 0;
    while i < n
        invariant
            n == g.edge_domains@.len(),
            doms == g@.edge_domains,
            key == (|d: EdgeDomainView| domain_id(d)),
            i <= n,
            index_matches(map@, last_index_map(doms.take(i as int), key)),
        decreases n - i,
    {
        map.insert(g.edge_domains[i].id.clone(), i);
        proof {
            let q = doms.take(i + 1);
            assert(q.drop_last() =~= doms.take(i as int));
        }
        i += 1;
    }
    proof {
        assert(doms.take(n as int) =~= doms);
    }
    map
}

/// The node index of each edge's ends.
pub open spec fn ends_resolved(
    g: EdgeDomainGroupView,
    src: Seq<usize>,
    dst: Seq<usize>,
) -> bool {
    &&& src.len() == g.compute_node_edges.len()
    &&& dst.len() == g.compute_node_edges.len()
    &&& forall|j: int|
        0 <= j < src.len() ==> #[trigger] src[j] as int == node_index(g.compute_nodes)[g.compute_node_edges[j].id1]
    &&& forall|j: int|
        0 <= j < dst.len() ==> #[trigger] dst[j] as int == node_index(g.compute_nodes)[g.compute_node_edges[j].id2]
}

/// Finds the nodes at both ends of each edge; `None` when an end is no node.
fn resolve_edges(g: &EdgeDomainGroup, node_map: &StringHashMap<usize>) -> (r: Option<(Vec<usize>, Vec<usize>)>)
    requires
        index_matches(node_map@, node_index(g@.compute_nodes)),
    ensures
        r is None <==> !edges_resolve(g@),
        r matches Some((src, dst)) ==> ends_resolved(g@, src@, dst@),
{
    let mut src: Vec<usize> = Vec::new();
    let mut dst: Vec<usize> = Vec::new();
    let n = g.compute_node_edges.len();
    let mut j: usize = 0;
    while j < n
        invariant
            n == g@.compute_node_edges.len(),
            index_matches(node_map@, node_index(g@.compute_nodes)),
            j <= n,
            src@.len() == j,
            dst@.len() == j,
            forall|i: int|
                #![trigger g@.compute_node_edges[i]]
                0 <= i < j ==> {
                    &&& node_index(g@.compute_nodes).contains_key(g@.compute_node_edges[i].id1)
                    &&& node_index(g@.compute_nodes).contains_key(g@.compute_node_edges[i].id2)
                },
            forall|i: int|
                0 <= i < j ==> #[trigger] src@[i] as int == node_index(g@.compute_nodes)[g@.compute_node_edges[i].id1],
            forall|i: int|
                0 <= i < j ==> #[trigger] dst@[i] as int == node_index(g@.compute_nodes)[g@.compute_node_edges[i].id2],
        decreases n - j,
    {
        let edge = &g.compute_node_edges[j];
        proof {
            assert(g@.compute_node_edges[j as int] == g.compute_node_edges@[j as int]@);
        }
        let b = match node_map.get(edge.compute_node_id2.as_str()) {
            Some(b) => *b,
            None => {
                assert(edge.compute_node_id2@ == g@.compute_node_edges[j as int].id2);
                assert(!node_index(g@.compute_nodes).contains_key(g@.compute_node_edges[j as int].id2));
                assert(!edges_resolve(g@));
                return None;
            },
        };
        let a = match node_map.get(edge.compute_node_id1.as_str()) {
            Some(a) => *a,
            None => {
                assert(!node_index(g@.compute_nodes).contains_key(g@.compute_node_edges[j as int].id1));
                return None;
            },
        };
        src.push(a);
        dst.push(b);
        j += 1;
    }
    Some((src, dst))
}


/// Which nodes have an incoming edge, by node index.
pub open spec fn incoming_flags_match(g: EdgeDomainGroupView, dst: Seq<usize>, has_in: Seq<bool>) -> bool {
    &&& has_in.len() == g.compute_nodes.len()
    &&& forall|k: int| 0 <= k < has_in.len() ==> (#[trigger] has_in[k] <==> exists|j: int| 0 <= j < dst.len() && dst[j] == k)
}

/// The node index of an edge's end is the index of a node with that id.
proof fn lemma_end_in_range(g: EdgeDomainGroupView, src: Seq<usize>, dst: Seq<usize>, j: int)
    requires
        edges_resolve(g),
        ends_resolved(g, src, dst),
        0 <= j < g.compute_node_edges.len(),
    ensures
        src[j] < g.compute_nodes.len(),
        dst[j] < g.compute_nodes.len(),
        g.compute_nodes[src[j] as int].id == g.compute_node_edges[j].id1,
        g.compute_nodes[dst[j] as int].id == g.compute_node_edges[j].id2,
{
    assert(g.compute_node_edges[j] == g.compute_node_edges[j]);
    lemma_node_index(g.compute_nodes, g.compute_node_edges[j].id1);
    lemma_node_index(g.compute_nodes, g.compute_node_edges[j].id2);
}

/// Marks the nodes that some edge ends at.
fn incoming_flags(g: &EdgeDomainGroup, src: &Vec<usize>, dst: &Vec<usize>) -> (has_in: Vec<bool>)
    requires
        edges_resolve(g@),
        ends_resolved(g@, src@, dst@),
    ensures
        incoming_flags_match(g@, dst@, has_in@),
{
    let n = g.compute_nodes.len();
    let mut has_in: Vec<bool> = Vec::new();
    let mut k: usize = 0;
    while k < n
        invariant
            n == g@.compute_nodes.len(),
            k <= n,
            has_in@.len() == k,
            forall|x: int| 0 <= x < k ==> !has_in@[x],
        decreases n - k,
    {
        has_in.push(false);
        k += 1;
    }
    let m = dst.len();
    let mut j: usize = 0;
    while j < m
        invariant
            n == g@.compute_nodes.len(),
            m == dst@.len(),
            edges_resolve(g@),
            ends_resolved(g@, src@, dst@),
            j <= m,
            has_in@.len() == n,
            forall|x: int| 0 <= x < n ==> (#[trigger] has_in@[x] <==> exists|i: int| 0 <= i < j && dst@[i] == x),
        decreases m - j,
    {
        proof {
            lemma_end_in_range(g@, src@, dst@, j as int);
        }
        let target = dst[j];
        has_in.set(target, true);
        proof {
            assert forall|x: int| 0 <= x < n implies (#[trigger] has_in@[x] <==> exists|i: int|
                0 <= i < j + 1 && dst@[i] == x) by {
                if x == target {
                    assert(dst@[j as int] == x);
                } else {
                    if exists|i: int| 0 <= i < j + 1 && dst@[i] == x {
                        let i = choose|i: int| 0 <= i < j + 1 && dst@[i] == x;
                        assert(i < j);
                    }
                }
            }
        }
        j += 1;
    }
    has_in
}

/// A node has an incoming edge exactly when its last namesake is marked.
proof fn lemma_incoming(g: EdgeDomainGroupView, src: Seq<usize>, dst: Seq<usize>, has_in: Seq<bool>, i: int)
    requires
        edges_resolve(g),
        ends_resolved(g, src, dst),
        incoming_flags_match(g, dst, has_in),
        0 <= i < g.compute_nodes.len(),
    ensures
        node_index(g.compute_nodes).contains_key(g.compute_nodes[i].id),
        0 <= node_index(g.compute_nodes)[g.compute_nodes[i].id] < g.compute_nodes.len(),
        has_in[node_index(g.compute_nodes)[g.compute_nodes[i].id]] <==> has_incoming(
            g.compute_node_edges,
            g.compute_nodes[i].id,
        ),
{
    let x = g.compute_nodes[i].id;
    lemma_node_index(g.compute_nodes, x);
    let k = node_index(g.compute_nodes)[x];
    if has_incoming(g.compute_node_edges, x) {
        let j = choose|j: int| 0 <= j < g.compute_node_edges.len() && #[trigger] g.compute_node_edges[j].id2 == x;
        lemma_end_in_range(g, src, dst, j);
        assert(dst[j] == k);
    }
    if has_in[k] {
        let j = choose|j: int| 0 <= j < dst.len() && dst[j] == k;
        lemma_end_in_range(g, src, dst, j);
        assert(g.compute_node_edges[j].id2 == x);
    }
}

/// The plain values of a list of optional indices.
pub open spec fn opt_seq(s: Seq<Option<usize>>) -> Seq<Option<int>> {
    s.map_values(
        |o: Option<usize>|
            match o {
                Some(x) => Some(x as int),
                None => None,
            },
    )
}

/// Assigns to each domain the last node without incoming edges that names
/// it; `None` when such a node names no domain.
fn assign_roots(
    g: &EdgeDomainGroup,
    dom_map: &StringHashMap<usize>,
    node_map: &StringHashMap<usize>,
    src: &Vec<usize>,
    dst: &Vec<usize>,
    has_in: &Vec<bool>,
) -> (r: Option<Vec<Option<usize>>>)
    requires
        index_matches(dom_map@, domain_index(g@.edge_domains)),
        index_matches(node_map@, node_index(g@.compute_nodes)),
        edges_resolve(g@),
        ends_resolved(g@, src@, dst@),
        incoming_flags_match(g@, dst@, has_in@),
    ensures
        r is None <==> !roots_resolve(g@),
        r matches Some(a) ==> a@.len() == g@.edge_domains.len(),
        r matches Some(a) ==> opt_seq(a@) == root_assignment(g@, g@.compute_nodes.len()),
        r matches Some(a) ==> forall|d: int|
            0 <= d < a@.len() ==> (#[trigger] a@[d] matches Some(x) ==> x < g@.compute_nodes.len()),
{
    let nd = g.edge_domains.len();
    let mut assign: Vec<Option<usize>> = Vec::new();
    let mut d: usize = 0;
    while d < nd
        invariant
            nd == g@.edge_domains.len(),
            d <= nd,
            assign@.len() == d,
            forall|x: int| 0 <= x < d ==> assign@[x] is None,
        decreases nd - d,
    {
        assign.push(None);
        d += 1;
    }
    proof {
        assert(opt_seq(assign@) =~= root_assignment(g@, 0));
    }
    let n = g.compute_nodes.len();
    let mut i: usize = 0;
    while i < n
        invariant
            n == g@.compute_nodes.len(),
            nd == g@.edge_domains.len(),
            index_matches(dom_map@, domain_index(g@.edge_domains)),
            index_matches(node_map@, node_index(g@.compute_nodes)),
            edges_resolve(g@),
            ends_resolved(g@, src@, dst@),
            incoming_flags_match(g@, dst@, has_in@),
            i <= n,
            assign@.len() == nd,
            opt_seq(assign@) == root_assignment(g@, i as nat),
            forall|x: int| 0 <= x < nd ==> (#[trigger] assign@[x] matches Some(y) ==> y < i),
            forall|x: int|
                #![trigger g@.compute_nodes[x]]
                0 <= x < i && !has_incoming(g@.compute_node_edges, g@.compute_nodes[x].id)
                    ==> domain_index(g@.edge_domains).contains_key(g@.compute_nodes[x].edge_domain_id),
        decreases n - i,
    {
        let node = &g.compute_nodes[i];
        proof {
            assert(g@.compute_nodes[i as int] == g.compute_nodes@[i as int]@);
            lemma_incoming(g@, src@, dst@, has_in@, i as int);
        }
        let k = *node_map.get(node.id.as_str()).unwrap();
        if !has_in[k] {
            match dom_map.get(node.edge_domain_id.as_str()) {
                None => {
                    assert(!roots_resolve(g@));
                    return None;
                },
                Some(dref) => {
                    let dd = *dref;
                    proof {
                        lemma_domain_index(g@.edge_domains, node.edge_domain_id@);
                    }
                    assign.set(dd, Some(i));
                    proof {
                        assert(opt_seq(assign@) =~= root_assignment(g@, (i + 1) as nat));
                    }
                },
            }
        } else {
            proof {
                assert(opt_seq(assign@) =~= root_assignment(g@, (i + 1) as nat));
            }
        }
        i += 1;
    }
    Some(assign)
}

/// Builds the domains with the roots that the nodes assign to them.
fn build_domains(g: &EdgeDomainGroup, assign: &Vec<Option<usize>>) -> (r: Vec<EdgeDomain>)
    requires
        opt_seq(assign@) == root_assignment(g@, g@.compute_nodes.len()),
        assign@.len() == g@.edge_domains.len(),
        forall|d: int| 0 <= d < assign@.len() ==> (#[trigger] assign@[d] matches Some(x) ==> x < g@.compute_nodes.len()),
    ensures
        domains_view(r@) == assigned_domains(g@),
{
    let nd = g.edge_domains.len();
    let mut r: Vec<EdgeDomain> = Vec::new();
    let mut d: usize = 0;
    while d < nd
        invariant
            nd == g@.edge_domains.len(),
            assign@.len() == nd,
            opt_seq(assign@) == root_assignment(g@, g@.compute_nodes.len()),
            forall|x: int| 0 <= x < assign@.len() ==> (#[trigger] assign@[x] matches Some(y) ==> y < g@.compute_nodes.len()),
            d <= nd,
            r@.len() == d,
            forall|x: int| 0 <= x < d ==> #[trigger] r@[x]@ == assigned_domains(g@)[x],
        decreases nd - d,
    {
        let dom = &g.edge_domains[d];
        let root = match assign[d] {
            Some(i) => Some(g.compute_nodes[i].id.clone()),
            None => clone_opt(&dom.root_node_id),
        };
        proof {
            assert(g@.edge_domains[d as int] == g.edge_domains@[d as int]@);
            assert(opt_seq(assign@)[d as int] == root_assignment(g@, g@.compute_nodes.len())[d as int]);
            if let Some(i) = assign@[d as int] {
                assert(g@.compute_nodes[i as int] == g.compute_nodes@[i as int]@);
            }
        }
        r.push(EdgeDomain { id: dom.id.clone(), name: dom.name.clone(), is_cloud: dom.is_cloud, root_node_id: root });
        d += 1;
    }
    proof {
        assert(domains_view(r@) =~= assigned_domains(g@));
    }
    r
}


/// Node `k` is the last node with its id.
pub open spec fn canonical(nodes: Seq<ComputeNodeView>, k: int) -> bool {
    &&& 0 <= k < nodes.len()
    &&& node_index(nodes).contains_key(nodes[k].id)
    &&& node_index(nodes)[nodes[k].id] == k
}

/// The root of a non-cloud domain is reached.
proof fn lemma_root_reached(dv: Seq<EdgeDomainView>, edges: Seq<ComputeNodeEdgeView>, d: int)
    requires
        0 <= d < dv.len(),
        !dv[d].is_cloud,
        dv[d].root_node_id is Some,
    ensures
        reached(dv, edges, dv[d].root_node_id->0),
{
    assert forall|s: Set<Seq<char>>| #[trigger] closed_under(dv, edges, s) implies s.contains(
        dv[d].root_node_id->0,
    ) by {
        assert(s.contains(dv[d].root_node_id->0));
    }
}

/// The end of an edge from a reached node is reached.
proof fn lemma_reached_step(dv: Seq<EdgeDomainView>, edges: Seq<ComputeNodeEdgeView>, j: int)
    requires
        0 <= j < edges.len(),
        reached(dv, edges, edges[j].id1),
    ensures
        reached(dv, edges, edges[j].id2),
{
    assert forall|s: Set<Seq<char>>| #[trigger] closed_under(dv, edges, s) implies s.contains(
        edges[j].id2,
    ) by {
        assert(s.contains(edges[j].id1));
    }
}

/// The number of marked entries.
pub open spec fn count_true(s: Seq<bool>) -> nat
    decreases s.len(),
{
    if s.len() == 0 {
        0
    } else {
        count_true(s.drop_last()) + if s.last() {
            1nat
        } else {
            0nat
        }
    }
}

/// Marking an unmarked entry adds one to the count, which stays within the
/// length.
proof fn lemma_count_true(s: Seq<bool>, k: int)
    requires
        0 <= k < s.len(),
        !s[k],
    ensures
        count_true(s.update(k, true)) == count_true(s) + 1,
        count_true(s) < s.len(),
    decreases s.len(),
{
    let t = s.update(k, true);
    if k == s.len() - 1 {
        assert(t.drop_last() =~= s.drop_last());
        lemma_count_bound(s.drop_last());
    } else {
        assert(t.drop_last() =~= s.drop_last().update(k, true));
        lemma_count_true(s.drop_last(), k);
    }
}

/// The count stays within the length.
proof fn lemma_count_bound(s: Seq<bool>)
    ensures
        count_true(s) <= s.len(),
    decreases s.len(),
{
    if s.len() > 0 {
        lemma_count_bound(s.drop_last());
    }
}

/// The node that a visit reaches.
pub open spec fn visit_node(nodes: Seq<ComputeNodeView>, dv: Seq<EdgeDomainView>, edges: Seq<ComputeNodeEdgeView>, v: Visit) -> int {
    node_index(nodes)[visit_id(dv, edges, v)]
}

/// A visit of the traversal whose node is known; a root visit belongs to a
/// domain before `droot`, and an edge visit starts at a visited node.
pub open spec fn visit_known(
    dv: Seq<EdgeDomainView>,
    g: EdgeDomainGroupView,
    src: Seq<usize>,
    visited: Seq<bool>,
    droot: int,
    v: Visit,
) -> bool {
    &&& is_visit(dv, g.compute_node_edges, v)
    &&& node_index(g.compute_nodes).contains_key(visit_id(dv, g.compute_node_edges, v))
    &&& match v {
        Visit::Root(d) => d < droot,
        Visit::Edge(j) => visited[src[j] as int],
    }
}

/// Edge `j` starts at node `skip_node` and is not yet looked at.
pub open spec fn exempt(src: Seq<usize>, skip_node: int, skip_from: int, j: int) -> bool {
    src[j] as int == skip_node && j >= skip_from
}

/// What holds of the traversal's records at all times.
pub open spec fn common_inv(
    dv: Seq<EdgeDomainView>,
    g: EdgeDomainGroupView,
    src: Seq<usize>,
    dst: Seq<usize>,
    visited: Seq<bool>,
    types: Seq<Option<bool>>,
    fathers: Seq<Option<usize>>,
    popped: Set<Visit>,
    droot: int,
    skip_node: int,
    skip_from: int,
) -> bool {
    let nodes = g.compute_nodes;
    let edges = g.compute_node_edges;
    let n = nodes.len();
    &&& visited.len() == n
    &&& types.len() == n
    &&& fathers.len() == n
    &&& forall|k: int|
        0 <= k < n && #[trigger] visited[k] ==> canonical(nodes, k) && reached(dv, edges, nodes[k].id)
    &&& forall|k: int|
        0 <= k < n ==> (#[trigger] visited[k] <==> exists|v: Visit|
            #[trigger] popped.contains(v) && visit_node(nodes, dv, edges, v) == k)
    &&& forall|v: Visit| #[trigger] popped.contains(v) ==> visit_known(dv, g, src, visited, droot, v)
    &&& forall|v: Visit, w: Visit|
        #[trigger] popped.contains(v) && #[trigger] popped.contains(w) && visit_id(dv, edges, v)
            == visit_id(dv, edges, w) ==> v == w
    &&& forall|k: int| 0 <= k < n ==> (#[trigger] types[k] is Some <==> visited[k])
    &&& forall|k: int|
        0 <= k < n ==> (#[trigger] types[k] matches Some(b) ==> b == has_outgoing(edges, nodes[k].id))
    &&& forall|k: int|
        0 <= k < n ==> (#[trigger] fathers[k] matches Some(j) ==> 0 <= j < edges.len()
            && visited[src[j as int] as int] && dst[j as int] as int == k)
    &&& forall|j: int|
        0 <= j < edges.len() && #[trigger] visited[src[j] as int] && !exempt(src, skip_node, skip_from, j)
            ==> fathers[dst[j] as int] is Some
}

/// The root of each non-cloud domain before `d_end` exists and is a node.
pub open spec fn roots_checked(dv: Seq<EdgeDomainView>, nodes: Seq<ComputeNodeView>, d_end: int) -> bool {
    forall|d: int|
        0 <= d < d_end && !(#[trigger] dv[d]).is_cloud ==> {
            &&& dv[d].root_node_id is Some
            &&& node_index(nodes).contains_key(dv[d].root_node_id->0)
        }
}

/// Between two domains: every visit so far has been made, and the visited
/// nodes are closed under the edges.
pub open spec fn settled_inv(
    dv: Seq<EdgeDomainView>,
    g: EdgeDomainGroupView,
    src: Seq<usize>,
    dst: Seq<usize>,
    visited: Seq<bool>,
    popped: Set<Visit>,
    d0: int,
) -> bool {
    let edges = g.compute_node_edges;
    &&& roots_checked(dv, g.compute_nodes, d0)
    &&& forall|d: int| 0 <= d < d0 && !(#[trigger] dv[d]).is_cloud ==> popped.contains(Visit::Root(d))
    &&& forall|j: int|
        0 <= j < edges.len() && #[trigger] visited[src[j] as int] ==> popped.contains(Visit::Edge(j))
    &&& forall|j: int| 0 <= j < edges.len() && #[trigger] visited[src[j] as int] ==> visited[dst[j] as int]
}

/// The visit is waiting in the queue.
pub open spec fn pending(qt: Seq<Visit>, head: int, v: Visit) -> bool {
    exists|m: int| head <= m < qt.len() && qt[m] == v
}

/// During the traversal from the root of domain `d0`.
pub open spec fn queue_inv(
    dv: Seq<EdgeDomainView>,
    g: EdgeDomainGroupView,
    src: Seq<usize>,
    dst: Seq<usize>,
    visited: Seq<bool>,
    popped: Set<Visit>,
    d0: int,
    q: Seq<usize>,
    qt: Seq<Visit>,
    head: int,
    skip_node: int,
    skip_from: int,
) -> bool {
    let nodes = g.compute_nodes;
    let edges = g.compute_node_edges;
    &&& q.len() == qt.len()
    &&& 0 <= head <= q.len()
    &&& roots_checked(dv, nodes, d0 + 1)
    &&& forall|m: int|
        head <= m < q.len() ==> {
            &&& visit_known(dv, g, src, visited, d0 + 1, #[trigger] qt[m])
            &&& q[m] as int == visit_node(nodes, dv, edges, qt[m])
            &&& q[m] < nodes.len()
            &&& !popped.contains(qt[m])
        }
    &&& forall|m1: int, m2: int|
        head <= m1 < q.len() && head <= m2 < q.len() && m1 != m2 ==> #[trigger] qt[m1] != #[trigger] qt[m2]
    &&& forall|d: int|
        0 <= d <= d0 && !(#[trigger] dv[d]).is_cloud ==> popped.contains(Visit::Root(d)) || pending(
            qt,
            head,
            Visit::Root(d),
        )
    &&& forall|j: int|
        0 <= j < edges.len() && #[trigger] visited[src[j] as int] && !exempt(src, skip_node, skip_from, j)
            ==> popped.contains(Visit::Edge(j)) || pending(qt, head, Visit::Edge(j))
    &&& forall|j: int|
        0 <= j < edges.len() && #[trigger] visited[src[j] as int] && !exempt(src, skip_node, skip_from, j)
            ==> visited[dst[j] as int] || pending(qt, head, Visit::Edge(j))
    &&& forall|j: int|
        0 <= j < edges.len() && exempt(src, skip_node, skip_from, j) ==> !popped.contains(
            Visit::Edge(j),
        ) && !pending(qt, head, Visit::Edge(j))
}

/// What the traversal hands back.
pub open spec fn traversal_result(
    dv: Seq<EdgeDomainView>,
    g: EdgeDomainGroupView,
    types: Seq<Option<bool>>,
    fathers: Seq<Option<usize>>,
) -> bool {
    let nodes = g.compute_nodes;
    let edges = g.compute_node_edges;
    &&& types.len() == nodes.len()
    &&& fathers.len() == nodes.len()
    &&& forall|k: int|
        0 <= k < nodes.len() ==> #[trigger] types[k] == (if canonical(nodes, k) && reached(
            dv,
            edges,
            nodes[k].id,
        ) {
            Some(has_outgoing(edges, nodes[k].id))
        } else {
            None
        })
    &&& forall|k: int|
        0 <= k < nodes.len() ==> (#[trigger] fathers[k] is Some <==> canonical(nodes, k)
            && has_reached_parent(dv, edges, nodes[k].id))
    &&& forall|k: int|
        0 <= k < nodes.len() ==> (#[trigger] fathers[k] matches Some(j) ==> 0 <= j < edges.len()
            && edges[j as int].id1 == reached_parent(dv, edges, nodes[k].id))
}


/// Whether some edge starts at node `k`.
fn starts_edge(src: &Vec<usize>, k: usize) -> (r: bool)
    ensures
        r == exists|j: int| 0 <= j < src@.len() && src@[j] == k,
{
    let n = src.len();
    let mut j: usize = 0;
    while j < n
        invariant
            n == src@.len(),
            j <= n,
            forall|i: int| 0 <= i < j ==> src@[i] != k,
        decreases n - j,
    {
        if src[j] == k {
            return true;
        }
        j += 1;
    }
    false
}

/// An edge starts at a node exactly when its index is the node's.
proof fn lemma_outgoing(g: EdgeDomainGroupView, src: Seq<usize>, dst: Seq<usize>, k: int)
    requires
        edges_resolve(g),
        ends_resolved(g, src, dst),
        canonical(g.compute_nodes, k),
    ensures
        has_outgoing(g.compute_node_edges, g.compute_nodes[k].id) <==> exists|j: int|
            0 <= j < src.len() && src[j] == k,
{
    let x = g.compute_nodes[k].id;
    if has_outgoing(g.compute_node_edges, x) {
        let j = choose|j: int| 0 <= j < g.compute_node_edges.len() && #[trigger] g.compute_node_edges[j].id1 == x;
        lemma_end_in_range(g, src, dst, j);
        assert(src[j] == k);
    }
    if exists|j: int| 0 <= j < src.len() && src[j] == k {
        let j = choose|j: int| 0 <= j < src.len() && src[j] == k;
        lemma_end_in_range(g, src, dst, j);
        assert(g.compute_node_edges[j].id1 == x);
    }
}

/// Two visits that reach the same node reach the same id.
proof fn lemma_same_node_same_id(
    dv: Seq<EdgeDomainView>,
    g: EdgeDomainGroupView,
    v: Visit,
    w: Visit,
)
    requires
        node_index(g.compute_nodes).contains_key(visit_id(dv, g.compute_node_edges, v)),
        node_index(g.compute_nodes).contains_key(visit_id(dv, g.compute_node_edges, w)),
        visit_node(g.compute_nodes, dv, g.compute_node_edges, v) == visit_node(
            g.compute_nodes,
            dv,
            g.compute_node_edges,
            w,
        ),
    ensures
        visit_id(dv, g.compute_node_edges, v) == visit_id(dv, g.compute_node_edges, w),
{
    lemma_node_index(g.compute_nodes, visit_id(dv, g.compute_node_edges, v));
    lemma_node_index(g.compute_nodes, visit_id(dv, g.compute_node_edges, w));
}


/// A popped visit's node is visited.
proof fn lemma_popped_visited(
    dv: Seq<EdgeDomainView>,
    g: EdgeDomainGroupView,
    src: Seq<usize>,
    dst: Seq<usize>,
    visited: Seq<bool>,
    types: Seq<Option<bool>>,
    fathers: Seq<Option<usize>>,
    popped: Set<Visit>,
    droot: int,
    skip_node: int,
    skip_from: int,
    v: Visit,
)
    requires
        common_inv(dv, g, src, dst, visited, types, fathers, popped, droot, skip_node, skip_from),
        popped.contains(v),
    ensures
        node_index(g.compute_nodes).contains_key(visit_id(dv, g.compute_node_edges, v)),
        0 <= visit_node(g.compute_nodes, dv, g.compute_node_edges, v) < g.compute_nodes.len(),
        visited[visit_node(g.compute_nodes, dv, g.compute_node_edges, v)],
        g.compute_nodes[visit_node(g.compute_nodes, dv, g.compute_node_edges, v)].id == visit_id(
            dv,
            g.compute_node_edges,
            v,
        ),
{
    assert(visit_known(dv, g, src, visited, droot, v));
    lemma_node_index(g.compute_nodes, visit_id(dv, g.compute_node_edges, v));
    let k = visit_node(g.compute_nodes, dv, g.compute_node_edges, v);
    assert(visited[k]);
}

/// Once every domain has been traversed, the traversal visited each node at
/// most once and its records are the ordered topology's.
proof fn lemma_traversal_done(
    dv: Seq<EdgeDomainView>,
    g: EdgeDomainGroupView,
    src: Seq<usize>,
    dst: Seq<usize>,
    visited: Seq<bool>,
    types: Seq<Option<bool>>,
    fathers: Seq<Option<usize>>,
    popped: Set<Visit>,
)
    requires
        edges_resolve(g),
        ends_resolved(g, src, dst),
        common_inv(dv, g, src, dst, visited, types, fathers, popped, dv.len() as int, -1, 0),
        settled_inv(dv, g, src, dst, visited, popped, dv.len() as int),
    ensures
        traversal_ok(dv, g.compute_nodes, g.compute_node_edges),
        traversal_result(dv, g, types, fathers),
{
    let nodes = g.compute_nodes;
    let edges = g.compute_node_edges;
    let nidx = node_index(nodes);
    let s = Set::new(|x: Seq<char>| nidx.contains_key(x) && visited[nidx[x]]);
    assert forall|d: int|
        0 <= d < dv.len() && !dv[d].is_cloud && dv[d].root_node_id is Some implies s.contains(
        #[trigger] dv[d].root_node_id->0,
    ) by {
        assert(!dv[d].is_cloud);
        assert(popped.contains(Visit::Root(d)));
        lemma_popped_visited(dv, g, src, dst, visited, types, fathers, popped, dv.len() as int, -1, 0, Visit::Root(d));
    }
    assert forall|j: int| 0 <= j < edges.len() && s.contains(#[trigger] edges[j].id1) implies s.contains(
        edges[j].id2,
    ) by {
        lemma_end_in_range(g, src, dst, j);
        assert(visited[src[j] as int]);
        assert(visited[dst[j] as int]);
    }
    assert(closed_under(dv, edges, s));
    assert forall|v: Visit| #[trigger] is_visit(dv, edges, v) implies popped.contains(v) by {
        match v {
            Visit::Root(d) => {
                assert(!dv[d].is_cloud);
            },
            Visit::Edge(j) => {
                assert(s.contains(edges[j].id1));
                lemma_end_in_range(g, src, dst, j);
                assert(visited[src[j] as int]);
            },
        }
    }
    assert(roots_present(dv, nodes)) by {
        assert forall|d: int| 0 <= d < dv.len() && !(#[trigger] dv[d]).is_cloud implies {
            &&& dv[d].root_node_id is Some
            &&& node_index(nodes).contains_key(dv[d].root_node_id->0)
        } by {
            assert(roots_checked(dv, nodes, dv.len() as int));
        }
    }
    assert(visits_distinct(dv, edges)) by {
        assert forall|v: Visit, w: Visit|
            is_visit(dv, edges, v) && is_visit(dv, edges, w) && #[trigger] visit_id(dv, edges, v)
                == #[trigger] visit_id(dv, edges, w) implies v == w by {
            assert(popped.contains(v));
            assert(popped.contains(w));
        }
    }
    assert forall|k: int| 0 <= k < nodes.len() implies #[trigger] types[k] == (if canonical(nodes, k)
        && reached(dv, edges, nodes[k].id) {
        Some(has_outgoing(edges, nodes[k].id))
    } else {
        None
    }) by {
        if canonical(nodes, k) && reached(dv, edges, nodes[k].id) {
            assert(s.contains(nodes[k].id));
            assert(visited[k]);
        }
        if visited[k] {
            assert(types[k] is Some);
        }
    }
    assert forall|k: int| 0 <= k < nodes.len() implies (#[trigger] fathers[k] is Some <==> canonical(nodes, k)
        && has_reached_parent(dv, edges, nodes[k].id)) by {
        if let Some(j) = fathers[k] {
            let j = j as int;
            lemma_end_in_range(g, src, dst, j);
            assert(visited[src[j] as int]);
            assert(reached(dv, edges, edges[j].id1));
            assert(edges[j].id2 == nodes[k].id);
            lemma_node_index(nodes, edges[j].id2);
        }
        if canonical(nodes, k) && has_reached_parent(dv, edges, nodes[k].id) {
            let j = choose|j: int| 0 <= j < edges.len() && reached(dv, edges, edges[j].id1) && #[trigger] edges[j].id2 == nodes[k].id;
            assert(s.contains(edges[j].id1));
            lemma_end_in_range(g, src, dst, j);
            assert(visited[src[j] as int]);
            assert(fathers[dst[j] as int] is Some);
        }
    }
    assert forall|k: int| 0 <= k < nodes.len() implies (#[trigger] fathers[k] matches Some(j) ==> 0 <= j < edges.len()
        && edges[j as int].id1 == reached_parent(dv, edges, nodes[k].id)) by {
        if let Some(j) = fathers[k] {
            let j = j as int;
            lemma_end_in_range(g, src, dst, j);
            assert(visited[src[j] as int]);
            assert(reached(dv, edges, edges[j].id1));
            let x = nodes[k].id;
            assert(edges[j].id2 == x);
            let j2 = choose|j2: int| 0 <= j2 < edges.len() && reached(dv, edges, edges[j2].id1) && #[trigger] edges[j2].id2 == x;
            assert(is_visit(dv, edges, Visit::Edge(j)));
            assert(is_visit(dv, edges, Visit::Edge(j2)));
            assert(visit_id(dv, edges, Visit::Edge(j)) == visit_id(dv, edges, Visit::Edge(j2)));
            assert(j == j2);
        }
    }
}


/// A visit known to the traversal reaches a node whose id is reached.
proof fn lemma_known_visit_reached(
    dv: Seq<EdgeDomainView>,
    g: EdgeDomainGroupView,
    src: Seq<usize>,
    visited: Seq<bool>,
    d: int,
    t: Visit,
)
    requires
        visit_known(dv, g, src, visited, d + 1, t),
        roots_checked(dv, g.compute_nodes, d + 1),
    ensures
        reached(dv, g.compute_node_edges, visit_id(dv, g.compute_node_edges, t)),
        canonical(g.compute_nodes, visit_node(g.compute_nodes, dv, g.compute_node_edges, t)),
        g.compute_nodes[visit_node(g.compute_nodes, dv, g.compute_node_edges, t)].id == visit_id(
            dv,
            g.compute_node_edges,
            t,
        ),
{
    lemma_node_index(g.compute_nodes, visit_id(dv, g.compute_node_edges, t));
    match t {
        Visit::Root(dd) => {
            assert(!dv[dd].is_cloud);
            lemma_root_reached(dv, g.compute_node_edges, dd);
        },
        Visit::Edge(j) => {
            lemma_reached_step(dv, g.compute_node_edges, j);
        },
    }
}

/// Popping an unvisited node from the queue visits it.
proof fn lemma_pop(
    dv: Seq<EdgeDomainView>,
    g: EdgeDomainGroupView,
    src: Seq<usize>,
    dst: Seq<usize>,
    visited: Seq<bool>,
    types: Seq<Option<bool>>,
    fathers: Seq<Option<usize>>,
    popped: Set<Visit>,
    d: int,
    q: Seq<usize>,
    qt: Seq<Visit>,
    head: int,
    skip_old: int,
    has_out: bool,
)
    requires
        edges_resolve(g),
        ends_resolved(g, src, dst),
        common_inv(dv, g, src, dst, visited, types, fathers, popped, d + 1, skip_old, g.compute_node_edges.len() as int),
        queue_inv(dv, g, src, dst, visited, popped, d, q, qt, head, skip_old, g.compute_node_edges.len() as int),
        head < q.len(),
        !visited[q[head] as int],
        has_out == exists|j: int| 0 <= j < src.len() && src[j] == q[head],
    ensures
        common_inv(
            dv,
            g,
            src,
            dst,
            visited.update(q[head] as int, true),
            types.update(q[head] as int, Some(has_out)),
            fathers,
            popped.insert(qt[head]),
            d + 1,
            q[head] as int,
            0,
        ),
        queue_inv(
            dv,
            g,
            src,
            dst,
            visited.update(q[head] as int, true),
            popped.insert(qt[head]),
            d,
            q,
            qt,
            head + 1,
            q[head] as int,
            0,
        ),
{
    let nodes = g.compute_nodes;
    let edges = g.compute_node_edges;
    let ne = edges.len() as int;
    let n = nodes.len();
    let k = q[head] as int;
    let t = qt[head];
    let vis2 = visited.update(k, true);
    let types2 = types.update(k, Some(has_out));
    let pop2 = popped.insert(t);
    assert(visit_known(dv, g, src, visited, d + 1, t));
    assert(!popped.contains(t));
    lemma_known_visit_reached(dv, g, src, visited, d, t);
    lemma_outgoing(g, src, dst, k);
    // the visited nodes
    assert forall|x: int| 0 <= x < n && #[trigger] vis2[x] implies canonical(nodes, x) && reached(dv, edges, nodes[x].id) by {
        if x != k {
            assert(visited[x]);
        }
    }
    assert forall|x: int| 0 <= x < n implies (#[trigger] vis2[x] <==> exists|v: Visit|
        #[trigger] pop2.contains(v) && visit_node(nodes, dv, edges, v) == x) by {
        if x == k {
            assert(pop2.contains(t) && visit_node(nodes, dv, edges, t) == x);
        } else {
            if visited[x] {
                let v = choose|v: Visit| #[trigger] popped.contains(v) && visit_node(nodes, dv, edges, v) == x;
                assert(pop2.contains(v));
            }
            if exists|v: Visit| #[trigger] pop2.contains(v) && visit_node(nodes, dv, edges, v) == x {
                let v = choose|v: Visit| #[trigger] pop2.contains(v) && visit_node(nodes, dv, edges, v) == x;
                assert(v != t);
                assert(popped.contains(v));
                assert(visited[x]);
            }
        }
    }
    assert forall|v: Visit| #[trigger] pop2.contains(v) implies visit_known(dv, g, src, vis2, d + 1, v) by {
        assert(visit_known(dv, g, src, visited, d + 1, v));
        if let Visit::Edge(j) = v {
            lemma_end_in_range(g, src, dst, j);
        }
    }
    assert forall|v: Visit, w: Visit|
        #[trigger] pop2.contains(v) && #[trigger] pop2.contains(w) && visit_id(dv, edges, v) == visit_id(dv, edges, w)
            implies v == w by {
        if v == t && w != t {
            assert(popped.contains(w));
            lemma_popped_visited(dv, g, src, dst, visited, types, fathers, popped, d + 1, skip_old, ne, w);
            assert(visit_node(nodes, dv, edges, w) == k);
        } else if w == t && v != t {
            assert(popped.contains(v));
            lemma_popped_visited(dv, g, src, dst, visited, types, fathers, popped, d + 1, skip_old, ne, v);
            assert(visit_node(nodes, dv, edges, v) == k);
        }
    }
    assert forall|x: int| 0 <= x < n implies (#[trigger] types2[x] is Some <==> vis2[x]) by {
        if x != k {
            assert(types[x] is Some <==> visited[x]);
        }
    }
    assert forall|x: int| 0 <= x < n implies (#[trigger] types2[x] matches Some(b) ==> b == has_outgoing(edges, nodes[x].id)) by {
        if x != k {
            assert(types[x] matches Some(b) ==> b == has_outgoing(edges, nodes[x].id));
        }
    }
    assert forall|x: int| 0 <= x < n implies (#[trigger] fathers[x] matches Some(j) ==> 0 <= j < edges.len()
        && vis2[src[j as int] as int] && dst[j as int] as int == x) by {
        if let Some(j) = fathers[x] {
            assert(visited[src[j as int] as int]);
            lemma_end_in_range(g, src, dst, j as int);
        }
    }
    assert forall|j: int|
        0 <= j < edges.len() && #[trigger] vis2[src[j] as int] && !exempt(src, k, 0, j)
            implies fathers[dst[j] as int] is Some by {
        lemma_end_in_range(g, src, dst, j);
        assert(visited[src[j] as int]);
        assert(!exempt(src, skip_old, ne, j));
    }
    // the queue
    assert forall|m: int| head + 1 <= m < q.len() implies {
        &&& visit_known(dv, g, src, vis2, d + 1, #[trigger] qt[m])
        &&& q[m] as int == visit_node(nodes, dv, edges, qt[m])
        &&& q[m] < nodes.len()
        &&& !pop2.contains(qt[m])
    } by {
        assert(visit_known(dv, g, src, visited, d + 1, qt[m]));
        if let Visit::Edge(j) = qt[m] {
            lemma_end_in_range(g, src, dst, j);
        }
        assert(qt[m] != qt[head]);
    }
    assert forall|dd: int|
        0 <= dd <= d && !(#[trigger] dv[dd]).is_cloud implies pop2.contains(Visit::Root(dd)) || pending(
        qt,
        head + 1,
        Visit::Root(dd),
    ) by {
        if !popped.contains(Visit::Root(dd)) {
            let m = choose|m: int| head <= m < qt.len() && qt[m] == Visit::Root(dd);
            if m != head {
                assert(pending(qt, head + 1, Visit::Root(dd)));
            }
        }
    }
    assert forall|j: int|
        0 <= j < edges.len() && #[trigger] vis2[src[j] as int] && !exempt(src, k, 0, j)
            implies pop2.contains(Visit::Edge(j)) || pending(qt, head + 1, Visit::Edge(j)) by {
        lemma_end_in_range(g, src, dst, j);
        assert(visited[src[j] as int]);
        assert(!exempt(src, skip_old, ne, j));
        if !popped.contains(Visit::Edge(j)) {
            let m = choose|m: int| head <= m < qt.len() && qt[m] == Visit::Edge(j);
            if m != head {
                assert(pending(qt, head + 1, Visit::Edge(j)));
            }
        }
    }
    assert forall|j: int|
        0 <= j < edges.len() && #[trigger] vis2[src[j] as int] && !exempt(src, k, 0, j)
            implies vis2[dst[j] as int] || pending(qt, head + 1, Visit::Edge(j)) by {
        lemma_end_in_range(g, src, dst, j);
        assert(visited[src[j] as int]);
        assert(!exempt(src, skip_old, ne, j));
        if !visited[dst[j] as int] {
            let m = choose|m: int| head <= m < qt.len() && qt[m] == Visit::Edge(j);
            if m != head {
                assert(pending(qt, head + 1, Visit::Edge(j)));
            } else {
                assert(visit_node(nodes, dv, edges, t) == dst[j]);
            }
        }
    }
    assert forall|j: int|
        0 <= j < edges.len() && exempt(src, k, 0, j) implies !pop2.contains(Visit::Edge(j)) && !pending(
        qt,
        head + 1,
        Visit::Edge(j),
    ) by {
        if popped.contains(Visit::Edge(j)) {
            assert(visit_known(dv, g, src, visited, d + 1, Visit::Edge(j)));
        }
        if t == Visit::Edge(j) {
            assert(visit_known(dv, g, src, visited, d + 1, t));
        }
        if pending(qt, head + 1, Visit::Edge(j)) {
            let m = choose|m: int| head + 1 <= m < qt.len() && qt[m] == Visit::Edge(j);
            assert(visit_known(dv, g, src, visited, d + 1, qt[m]));
        }
    }
}

/// Passing over an edge that does not start at the node just visited.
proof fn lemma_skip(
    dv: Seq<EdgeDomainView>,
    g: EdgeDomainGroupView,
    src: Seq<usize>,
    dst: Seq<usize>,
    visited: Seq<bool>,
    types: Seq<Option<bool>>,
    fathers: Seq<Option<usize>>,
    popped: Set<Visit>,
    d: int,
    q: Seq<usize>,
    qt: Seq<Visit>,
    head: int,
    k: int,
    j: int,
)
    requires
        common_inv(dv, g, src, dst, visited, types, fathers, popped, d + 1, k, j),
        queue_inv(dv, g, src, dst, visited, popped, d, q, qt, head, k, j),
        0 <= j < g.compute_node_edges.len(),
        src[j] as int != k,
    ensures
        common_inv(dv, g, src, dst, visited, types, fathers, popped, d + 1, k, j + 1),
        queue_inv(dv, g, src, dst, visited, popped, d, q, qt, head, k, j + 1),
{
    let edges = g.compute_node_edges;
    assert forall|jj: int| 0 <= jj < edges.len() && exempt(src, k, j + 1, jj) implies !popped.contains(
        Visit::Edge(jj),
    ) && !pending(qt, head, Visit::Edge(jj)) by {
        assert(exempt(src, k, j, jj));
    }
    assert forall|jj: int|
        0 <= jj < edges.len() && #[trigger] visited[src[jj] as int] && !exempt(src, k, j + 1, jj)
            implies popped.contains(Visit::Edge(jj)) || pending(qt, head, Visit::Edge(jj)) by {
        assert(!exempt(src, k, j, jj));
    }
    assert forall|jj: int|
        0 <= jj < edges.len() && #[trigger] visited[src[jj] as int] && !exempt(src, k, j + 1, jj)
            implies visited[dst[jj] as int] || pending(qt, head, Visit::Edge(jj)) by {
        assert(!exempt(src, k, j, jj));
    }
    assert forall|jj: int|
        0 <= jj < edges.len() && #[trigger] visited[src[jj] as int] && !exempt(src, k, j + 1, jj)
            implies fathers[dst[jj] as int] is Some by {
        assert(!exempt(src, k, j, jj));
    }
}

/// Queueing the end of an edge from the node just visited.
proof fn lemma_push(
    dv: Seq<EdgeDomainView>,
    g: EdgeDomainGroupView,
    src: Seq<usize>,
    dst: Seq<usize>,
    visited: Seq<bool>,
    types: Seq<Option<bool>>,
    fathers: Seq<Option<usize>>,
    popped: Set<Visit>,
    d: int,
    q: Seq<usize>,
    qt: Seq<Visit>,
    head: int,
    k: usize,
    j: usize,
)
    requires
        edges_resolve(g),
        ends_resolved(g, src, dst),
        common_inv(dv, g, src, dst, visited, types, fathers, popped, d + 1, k as int, j as int),
        queue_inv(dv, g, src, dst, visited, popped, d, q, qt, head, k as int, j as int),
        k < visited.len(),
        visited[k as int],
        j < g.compute_node_edges.len(),
        src[j as int] == k,
    ensures
        dst[j as int] < fathers.len(),
        common_inv(dv, g, src, dst, visited, types, fathers.update(dst[j as int] as int, Some(j)), popped, d + 1, k as int, j + 1),
        queue_inv(dv, g, src, dst, visited, popped, d, q.push(dst[j as int]), qt.push(Visit::Edge(j as int)), head, k as int, j + 1),
{
    let k = k as int;
    let ju = j;
    let j = j as int;
    let nodes = g.compute_nodes;
    let edges = g.compute_node_edges;
    let n = nodes.len();
    let c = dst[j] as int;
    let f2 = fathers.update(c, Some(ju));
    let q2 = q.push(dst[j]);
    let qt2 = qt.push(Visit::Edge(j));
    let e = Visit::Edge(j);
    lemma_end_in_range(g, src, dst, j);
    assert(reached(dv, edges, nodes[k].id));
    assert(visit_known(dv, g, src, visited, d + 1, e));
    assert(exempt(src, k, j, j));
    assert forall|x: int| 0 <= x < n implies (#[trigger] f2[x] matches Some(jj) ==> 0 <= jj < edges.len()
        && visited[src[jj as int] as int] && dst[jj as int] as int == x) by {
        if x != c {
            assert(fathers[x] matches Some(jj) ==> 0 <= jj < edges.len()
                && visited[src[jj as int] as int] && dst[jj as int] as int == x);
        }
    }
    assert forall|jj: int|
        0 <= jj < edges.len() && #[trigger] visited[src[jj] as int] && !exempt(src, k, j + 1, jj)
            implies f2[dst[jj] as int] is Some by {
        lemma_end_in_range(g, src, dst, jj);
        if jj != j {
            assert(!exempt(src, k, j, jj));
            assert(fathers[dst[jj] as int] is Some);
        }
    }
    assert forall|m: int| head <= m < q2.len() implies {
        &&& visit_known(dv, g, src, visited, d + 1, #[trigger] qt2[m])
        &&& q2[m] as int == visit_node(nodes, dv, edges, qt2[m])
        &&& q2[m] < nodes.len()
        &&& !popped.contains(qt2[m])
    } by {
        if m < q.len() {
            assert(qt2[m] == qt[m]);
        }
    }
    assert forall|m1: int, m2: int|
        head <= m1 < q2.len() && head <= m2 < q2.len() && m1 != m2 implies #[trigger] qt2[m1] != #[trigger] qt2[m2] by {
        if m1 == q.len() {
            assert(!pending(qt, head, e));
            assert(qt2[m2] == qt[m2]);
        } else if m2 == q.len() {
            assert(!pending(qt, head, e));
            assert(qt2[m1] == qt[m1]);
        } else {
            assert(qt2[m1] == qt[m1]);
            assert(qt2[m2] == qt[m2]);
        }
    }
    assert forall|v: Visit| pending(qt, head, v) implies pending(qt2, head, v) by {
        let m = choose|m: int| head <= m < qt.len() && qt[m] == v;
        assert(qt2[m] == v);
    }
    assert(pending(qt2, head, e)) by {
        assert(qt2[q.len() as int] == e);
    }
    assert forall|dd: int|
        0 <= dd <= d && !(#[trigger] dv[dd]).is_cloud implies popped.contains(Visit::Root(dd)) || pending(
        qt2,
        head,
        Visit::Root(dd),
    ) by {
        if !popped.contains(Visit::Root(dd)) {
            assert(pending(qt, head, Visit::Root(dd)));
        }
    }
    assert forall|jj: int|
        0 <= jj < edges.len() && #[trigger] visited[src[jj] as int] && !exempt(src, k, j + 1, jj)
            implies popped.contains(Visit::Edge(jj)) || pending(qt2, head, Visit::Edge(jj)) by {
        if jj != j {
            assert(!exempt(src, k, j, jj));
            if !popped.contains(Visit::Edge(jj)) {
                assert(pending(qt, head, Visit::Edge(jj)));
            }
        }
    }
    assert forall|jj: int|
        0 <= jj < edges.len() && #[trigger] visited[src[jj] as int] && !exempt(src, k, j + 1, jj)
            implies visited[dst[jj] as int] || pending(qt2, head, Visit::Edge(jj)) by {
        if jj != j {
            assert(!exempt(src, k, j, jj));
            if !visited[dst[jj] as int] {
                assert(pending(qt, head, Visit::Edge(jj)));
            }
        }
    }
    assert forall|jj: int|
        0 <= jj < edges.len() && exempt(src, k, j + 1, jj) implies !popped.contains(Visit::Edge(jj)) && !pending(
        qt2,
        head,
        Visit::Edge(jj),
    ) by {
        assert(exempt(src, k, j, jj));
        if pending(qt2, head, Visit::Edge(jj)) {
            let m = choose|m: int| head <= m < qt2.len() && qt2[m] == Visit::Edge(jj);
            if m < qt.len() {
                assert(qt[m] == Visit::Edge(jj));
                assert(pending(qt, head, Visit::Edge(jj)));
            }
        }
    }
}

/// Traverses the topology from the root of each non-cloud domain in turn,
/// recording for each reached node whether an edge starts at it and the edge
/// that reached it; `None` when the traversal breaks.
#[verifier::spinoff_prover]
fn traverse(
    g: &EdgeDomainGroup,
    doms: &Vec<EdgeDomain>,
    node_map: &StringHashMap<usize>,
    src: &Vec<usize>,
    dst: &Vec<usize>,
) -> (r: Option<(Vec<Option<bool>>, Vec<Option<usize>>)>)
    requires
        index_matches(node_map@, node_index(g@.compute_nodes)),
        edges_resolve(g@),
        ends_resolved(g@, src@, dst@),
    ensures
        r is None <==> !traversal_ok(domains_view(doms@), g@.compute_nodes, g@.compute_node_edges),
        r matches Some((types, fathers)) ==> traversal_result(domains_view(doms@), g@, types@, fathers@),
{
    let ghost dv = domains_view(doms@);
    let ghost gv = g@;
    let ghost nodes = gv.compute_nodes;
    let ghost edges = gv.compute_node_edges;
    let n = g.compute_nodes.len();
    let ne = src.len();
    let mut visited: Vec<bool> = Vec::new();
    let mut types: Vec<Option<bool>> = Vec::new();
    let mut fathers: Vec<Option<usize>> = Vec::new();
    let mut i: usize = 0;
    while i < n
        invariant
            n == g@.compute_nodes.len(),
            i <= n,
            visited@.len() == i,
            types@.len() == i,
            fathers@.len() == i,
            forall|x: int| 0 <= x < i ==> !(#[trigger] visited@[x]),
            forall|x: int| 0 <= x < i ==> (#[trigger] types@[x]) is None,
            forall|x: int| 0 <= x < i ==> (#[trigger] fathers@[x]) is None,
        decreases n - i,
    {
        visited.push(false);
        types.push(None);
        fathers.push(None);
        i += 1;
    }
    let ghost mut popped: Set<Visit> = Set::empty();
    proof {
        lemma_count_bound(visited@);
        assert forall|x: int| 0 <= x < n implies (#[trigger] visited@[x] <==> exists|v: Visit|
            #[trigger] popped.contains(v) && visit_node(nodes, dv, edges, v) == x) by {
            assert(!visited@[x]);
        }
        assert forall|j: int| 0 <= j < ne implies !(#[trigger] visited@[src@[j] as int]) by {
            lemma_end_in_range(gv, src@, dst@, j);
        }
        assert(common_inv(dv, gv, src@, dst@, visited@, types@, fathers@, popped, 0, 0, ne as int));
        assert(settled_inv(dv, gv, src@, dst@, visited@, popped, 0));
    }
    let nd = doms.len();
    let mut d: usize = 0;
    while d < nd
        invariant
            nd == dv.len(),
            dv == domains_view(doms@),
            gv == g@,
            nodes == gv.compute_nodes,
            edges == gv.compute_node_edges,
            n == nodes.len(),
            ne == edges.len(),
            index_matches(node_map@, node_index(nodes)),
            edges_resolve(gv),
            ends_resolved(gv, src@, dst@),
            d <= nd,
            count_true(visited@) <= n,
            common_inv(dv, gv, src@, dst@, visited@, types@, fathers@, popped, d as int, 0, ne as int),
            settled_inv(dv, gv, src@, dst@, visited@, popped, d as int),
        decreases nd - d,
    {
        let dom = &doms[d];
        proof {
            assert(dv[d as int] == doms@[d as int]@);
        }
        if !dom.is_cloud {
            let root = match &dom.root_node_id {
                Some(r) => r,
                None => {
                    assert(!roots_present(dv, nodes));
                    return None;
                },
            };
            let k0 = match node_map.get(root.as_str()) {
                Some(k) => *k,
                None => {
                    assert(!roots_present(dv, nodes));
                    return None;
                },
            };
            let mut q: Vec<usize> = Vec::new();
            q.push(k0);
            let ghost mut qt: Seq<Visit> = seq![Visit::Root(d as int)];
            let mut head: usize = 0;
            let ghost mut skip_k: int = 0;
            proof {
                lemma_node_index(nodes, root@);
                assert(visit_id(dv, edges, Visit::Root(d as int)) == root@);
                assert(roots_checked(dv, nodes, d + 1)) by {
                    assert(roots_checked(dv, nodes, d as int));
                }
                assert(!popped.contains(Visit::Root(d as int))) by {
                    if popped.contains(Visit::Root(d as int)) {
                        assert(visit_known(dv, gv, src@, visited@, d as int, Visit::Root(d as int)));
                    }
                }
                assert(pending(qt, 0, Visit::Root(d as int))) by {
                    assert(qt[0] == Visit::Root(d as int));
                }
                assert forall|j: int|
                    0 <= j < edges.len() && #[trigger] visited@[src@[j] as int] && !exempt(src@, skip_k, ne as int, j)
                        implies popped.contains(Visit::Edge(j)) || pending(qt, 0, Visit::Edge(j)) by {
                    assert(settled_inv(dv, gv, src@, dst@, visited@, popped, d as int));
                }
            }
            while head < q.len()
                invariant
                    nd == dv.len(),
                    dv == domains_view(doms@),
                    gv == g@,
                    nodes == gv.compute_nodes,
                    edges == gv.compute_node_edges,
                    n == nodes.len(),
                    ne == edges.len(),
                    index_matches(node_map@, node_index(nodes)),
                    edges_resolve(gv),
                    ends_resolved(gv, src@, dst@),
                    d < nd,
                    !dv[d as int].is_cloud,
                    count_true(visited@) <= n,
                    common_inv(dv, gv, src@, dst@, visited@, types@, fathers@, popped, d + 1, skip_k, ne as int),
                    queue_inv(dv, gv, src@, dst@, visited@, popped, d as int, q@, qt, head as int, skip_k, ne as int),
                decreases n - count_true(visited@),
            {
                let k = q[head];
                let ghost t = qt[head as int];
                if visited[k] {
                    proof {
                        assert(visited@[k as int]);
                        let v = choose|v: Visit| #[trigger] popped.contains(v) && visit_node(nodes, dv, edges, v) == k;
                        lemma_popped_visited(dv, gv, src@, dst@, visited@, types@, fathers@, popped, d + 1, skip_k, ne as int, v);
                        assert(visit_known(dv, gv, src@, visited@, d + 1, t));
                        lemma_same_node_same_id(dv, gv, v, t);
                        assert(v != t);
                        assert(is_visit(dv, edges, v));
                        assert(is_visit(dv, edges, t));
                    }
                    return None;
                }
                proof {
                    lemma_count_true(visited@, k as int);
                }
                let has_out = starts_edge(src, k);
                proof {
                    lemma_pop(dv, gv, src@, dst@, visited@, types@, fathers@, popped, d as int, q@, qt, head as int, skip_k, has_out);
                }
                visited.set(k, true);
                types.set(k, Some(has_out));
                proof {
                    popped = popped.insert(t);
                    skip_k = k as int;
                }
                head += 1;
                let mut j: usize = 0;
                while j < ne
                    invariant
                        nd == dv.len(),
                        dv == domains_view(doms@),
                        gv == g@,
                        nodes == gv.compute_nodes,
                        edges == gv.compute_node_edges,
                        n == nodes.len(),
                        ne == edges.len(),
                        ne == src@.len(),
                        edges_resolve(gv),
                        ends_resolved(gv, src@, dst@),
                        d < nd,
                        skip_k == k,
                        k < n,
                        visited@[k as int],
                        j <= ne,
                        common_inv(dv, gv, src@, dst@, visited@, types@, fathers@, popped, d + 1, skip_k, j as int),
                        queue_inv(dv, gv, src@, dst@, visited@, popped, d as int, q@, qt, head as int, skip_k, j as int),
                    decreases ne - j,
                {
                    if src[j] == k {
                        proof {
                            lemma_push(dv, gv, src@, dst@, visited@, types@, fathers@, popped, d as int, q@, qt, head as int, k, j);
                        }
                        let c = dst[j];
                        q.push(c);
                        proof {
                            qt = qt.push(Visit::Edge(j as int));
                        }
                        fathers.set(c, Some(j));
                    } else {
                        proof {
                            lemma_skip(dv, gv, src@, dst@, visited@, types@, fathers@, popped, d as int, q@, qt, head as int, k as int, j as int);
                        }
                    }
                    j += 1;
                }
            }
        }
        d += 1;
    }
    proof {
        lemma_traversal_done(dv, gv, src@, dst@, visited@, types@, fathers@, popped);
    }
    Some((types, fathers))
}


/// Builds the nodes as the traversal left them.
fn build_nodes(
    g: &EdgeDomainGroup,
    dv: Ghost<Seq<EdgeDomainView>>,
    types: &Vec<Option<bool>>,
    fathers: &Vec<Option<usize>>,
) -> (r: Vec<ComputeNode>)
    requires
        traversal_result(dv@, g@, types@, fathers@),
    ensures
        nodes_view(r@) == Seq::new(
            g@.compute_nodes.len(),
            |i: int| ordered_node(dv@, g@.compute_nodes, g@.compute_node_edges, i),
        ),
{
    let n = g.compute_nodes.len();
    let mut r: Vec<ComputeNode> = Vec::new();
    let mut i: usize = 0;
    while i < n
        invariant
            n == g@.compute_nodes.len(),
            traversal_result(dv@, g@, types@, fathers@),
            i <= n,
            r@.len() == i,
            forall|x: int| 0 <= x < i ==> #[trigger] r@[x]@ == ordered_node(dv@, g@.compute_nodes, g@.compute_node_edges, x),
        decreases n - i,
    {
        let node = &g.compute_nodes[i];
        proof {
            assert(g@.compute_nodes[i as int] == g.compute_nodes@[i as int]@);
        }
        let node_type = match types[i] {
            Some(true) => Some(String::from_str("non-leaf")),
            Some(false) => Some(String::from_str("leaf")),
            None => match &node.node_type {
                Some(t) => Some(t.clone()),
                None => Some(String::from_str("cloud")),
            },
        };
        let father_hostname = match fathers[i] {
            Some(j) => {
                proof {
                    assert(g@.compute_node_edges[j as int] == g.compute_node_edges@[j as int]@);
                }
                Some(g.compute_node_edges[j].compute_node_id1.clone())
            },
            None => clone_opt(&node.father_hostname),
        };
        r.push(
            ComputeNode {
                id: node.id.clone(),
                name: node.name.clone(),
                slot: node.slot,
                edge_domain_id: node.edge_domain_id.clone(),
                father_hostname,
                node_type,
            },
        );
        proof {
            let x = i as int;
            assert(types@[x] == (if canonical(g@.compute_nodes, x) && reached(dv@, g@.compute_node_edges, g@.compute_nodes[x].id) {
                Some(has_outgoing(g@.compute_node_edges, g@.compute_nodes[x].id))
            } else {
                None
            }));
            assert(fathers@[x] is Some <==> canonical(g@.compute_nodes, x) && has_reached_parent(dv@, g@.compute_node_edges, g@.compute_nodes[x].id));
            assert(fathers@[x] matches Some(j) ==> 0 <= j < g@.compute_node_edges.len()
                && g@.compute_node_edges[j as int].id1 == reached_parent(dv@, g@.compute_node_edges, g@.compute_nodes[x].id));
            assert(g@.compute_nodes[x] == node@);
            lemma_node_index(g@.compute_nodes, node.id@);
            assert(r@[x]@ == ordered_node(dv@, g@.compute_nodes, g@.compute_node_edges, x));
        }
        i += 1;
    }
    proof {
        assert(nodes_view(r@) =~= Seq::new(
            g@.compute_nodes.len(),
            |i: int| ordered_node(dv@, g@.compute_nodes, g@.compute_node_edges, i),
        ));
    }
    r
}

/// Copies the edges.
fn clone_edges(edges: &Vec<ComputeNodeEdge>) -> (r: Vec<ComputeNodeEdge>)
    ensures
        edges_view(r@) == edges_view(edges@),
{
    let n = edges.len();
    let mut r: Vec<ComputeNodeEdge> = Vec::new();
    let mut i: usize = 0;
    while i < n
        invariant
            n == edges@.len(),
            i <= n,
            r@.len() == i,
            forall|x: int| 0 <= x < i ==> #[trigger] r@[x]@ == edges@[x]@,
        decreases n - i,
    {
        r.push(
            ComputeNodeEdge {
                compute_node_id1: edges[i].compute_node_id1.clone(),
                compute_node_id2: edges[i].compute_node_id2.clone(),
            },
        );
        i += 1;
    }
    proof {
        assert(edges_view(r@) =~= edges_view(edges@));
    }
    r
}

/// Puts a topology in order: each node without incoming edges becomes the
/// root of its domain; from the root of each non-cloud domain the nodes are
/// traversed along the edges, and each reached node becomes a leaf or a
/// non-leaf with the node that reached it as its father; every node without
/// a type then becomes a cloud node. Fails where an edge names no node, a
/// node without incoming edges names no domain, or the traversal breaks.
pub fn compute_topo_order(g: &EdgeDomainGroup) -> (r: Result<EdgeDomainGroup, TopoError>)
    ensures
        match r {
            Ok(t) => spec_topo_order(g@) == Ok::<EdgeDomainGroupView, TopoError>(t@),
            Err(e) => spec_topo_order(g@) == Err::<EdgeDomainGroupView, TopoError>(e),
        },
{
    let node_map = index_nodes(g);
    let dom_map = index_domains(g);
    let (src, dst) = match resolve_edges(g, &node_map) {
        Some(p) => p,
        None => {
            return Err(TopoError::UnknownEdgeEndpoint);
        },
    };
    let has_in = incoming_flags(g, &src, &dst);
    let assign = match assign_roots(g, &dom_map, &node_map, &src, &dst, &has_in) {
        Some(a) => a,
        None => {
            return Err(TopoError::UnknownDomain);
        },
    };
    let domains = build_domains(g, &assign);
    let (types, fathers) = match traverse(g, &domains, &node_map, &src, &dst) {
        Some(p) => p,
        None => {
            return Err(TopoError::BrokenTraversal);
        },
    };
    let nodes = build_nodes(g, Ghost(domains_view(domains@)), &types, &fathers);
    let edges = clone_edges(&g.compute_node_edges);
    let r = EdgeDomainGroup { edge_domains: domains, compute_nodes: nodes, compute_node_edges: edges };
    proof {
        assert(r@ == spec_topo_order(g@)->Ok_0);
    }
    Ok(r)
}

} // verus!
