use vstd::hash_map::StringHashMap;
use vstd::prelude::*;

verus! {

/// The view of an optional string.
pub open spec fn opt_view(o: Option<String>) -> Option<Seq<char>> {
    match o {
        Some(s) => Some(s@),
        None => None,
    }
}

/// Copies an optional string.
pub fn clone_opt(o: &Option<String>) -> (r: Option<String>)
    ensures
        opt_view(r) == opt_view(*o),
{
    match o {
        Some(s) => Some(s.clone()),
        None => None,
    }
}

/// For each key that occurs in `s`, the index of its last occurrence.
pub open spec fn last_index_map<T>(s: Seq<T>, key: spec_fn(T) -> Seq<char>) -> Map<Seq<char>, int>
    decreases s.len(),
{
    if s.len() == 0 {
        Map::empty()
    } else {
        last_index_map(s.drop_last(), key).insert(key(s.last()), s.len() - 1)
    }
}

/// A key is in the map exactly when it occurs in `s`, and the map gives the
/// index of its last occurrence.
pub proof fn lemma_last_index_map<T>(s: Seq<T>, key: spec_fn(T) -> Seq<char>, k: Seq<char>)
    ensures
        last_index_map(s, key).contains_key(k) <==> exists|i: int| 0 <= i < s.len() && key(s[i]) == k,
        last_index_map(s, key).contains_key(k) ==> {
            let i = last_index_map(s, key)[k];
            &&& 0 <= i < s.len()
            &&& key(s[i]) == k
            &&& forall|j: int| i < j < s.len() ==> key(s[j]) != k
        },
    decreases s.len(),
{
    if s.len() > 0 {
        let p = s.drop_last();
        lemma_last_index_map(p, key, k);
        if key(s.last()) != k {
            if exists|i: int| 0 <= i < s.len() && key(s[i]) == k {
                let i = choose|i: int| 0 <= i < s.len() && key(s[i]) == k;
                assert(p[i] == s[i]);
            }
            if last_index_map(p, key).contains_key(k) {
                let i = last_index_map(p, key)[k];
                assert(p[i] == s[i]);
                assert forall|j: int| i < j < s.len() implies key(s[j]) != k by {
                    if j < p.len() {
                        assert(p[j] == s[j]);
                    }
                }
            }
        }
    }
}

/// An edge domain: a group of compute nodes under one root.
pub struct EdgeDomain {
    pub id: String,
    pub name: String,
    pub is_cloud: bool,
    pub root_node_id: Option<String>,
}

/// The plain values of an edge domain.
pub struct EdgeDomainView {
    pub id: Seq<char>,
    pub name: Seq<char>,
    pub is_cloud: bool,
    pub root_node_id: Option<Seq<char>>,
}

impl View for EdgeDomain {
    type V = EdgeDomainView;

    open spec fn view(&self) -> EdgeDomainView {
        EdgeDomainView {
            id: self.id@,
            name: self.name@,
            is_cloud: self.is_cloud,
            root_node_id: opt_view(self.root_node_id),
        }
    }
}

/// A compute node of the topology.
pub struct ComputeNode {
    pub id: String,
    pub name: String,
    pub slot: i32,
    pub edge_domain_id: String,
    pub father_hostname: Option<String>,
    pub node_type: Option<String>,
}

/// The plain values of a compute node.
pub struct ComputeNodeView {
    pub id: Seq<char>,
    pub name: Seq<char>,
    pub slot: i32,
    pub edge_domain_id: Seq<char>,
    pub father_hostname: Option<Seq<char>>,
    pub node_type: Option<Seq<char>>,
}

impl View for ComputeNode {
    type V = ComputeNodeView;

    open spec fn view(&self) -> ComputeNodeView {
        ComputeNodeView {
            id: self.id@,
            name: self.name@,
            slot: self.slot,
            edge_domain_id: self.edge_domain_id@,
            father_hostname: opt_view(self.father_hostname),
            node_type: opt_view(self.node_type),
        }
    }
}

/// A directed edge from one compute node to another.
pub struct ComputeNodeEdge {
    pub compute_node_id1: String,
    pub compute_node_id2: String,
}

/// The plain values of an edge.
pub struct ComputeNodeEdgeView {
    pub id1: Seq<char>,
    pub id2: Seq<char>,
}

impl View for ComputeNodeEdge {
    type V = ComputeNodeEdgeView;

    open spec fn view(&self) -> ComputeNodeEdgeView {
        ComputeNodeEdgeView { id1: self.compute_node_id1@, id2: self.compute_node_id2@ }
    }
}

/// The topology: edge domains, compute nodes and the edges between nodes.
pub struct EdgeDomainGroup {
    pub edge_domains: Vec<EdgeDomain>,
    pub compute_nodes: Vec<ComputeNode>,
    pub compute_node_edges: Vec<ComputeNodeEdge>,
}

/// The plain values of a topology.
pub struct EdgeDomainGroupView {
    pub edge_domains: Seq<EdgeDomainView>,
    pub compute_nodes: Seq<ComputeNodeView>,
    pub compute_node_edges: Seq<ComputeNodeEdgeView>,
}

/// The plain values of a list of domains.
pub open spec fn domains_view(s: Seq<EdgeDomain>) -> Seq<EdgeDomainView> {
    s.map_values(|d: EdgeDomain| d@)
}

/// The plain values of a list of nodes.
pub open spec fn nodes_view(s: Seq<ComputeNode>) -> Seq<ComputeNodeView> {
    s.map_values(|n: ComputeNode| n@)
}

/// The plain values of a list of edges.
pub open spec fn edges_view(s: Seq<ComputeNodeEdge>) -> Seq<ComputeNodeEdgeView> {
    s.map_values(|e: ComputeNodeEdge| e@)
}

impl View for EdgeDomainGroup {
    type V = EdgeDomainGroupView;

    open spec fn view(&self) -> EdgeDomainGroupView {
        EdgeDomainGroupView {
            edge_domains: domains_view(self.edge_domains@),
            compute_nodes: nodes_view(self.compute_nodes@),
            compute_node_edges: edges_view(self.compute_node_edges@),
        }
    }
}

/// The id of a node.
pub open spec fn node_id(n: ComputeNodeView) -> Seq<char> {
    n.id
}

/// The id of a domain.
pub open spec fn domain_id(d: EdgeDomainView) -> Seq<char> {
    d.id
}

/// For each node id, the index of the last node with that id.
pub open spec fn node_index(nodes: Seq<ComputeNodeView>) -> Map<Seq<char>, int> {
    last_index_map(nodes, |n: ComputeNodeView| node_id(n))
}

/// For each domain id, the index of the last domain with that id.
pub open spec fn domain_index(domains: Seq<EdgeDomainView>) -> Map<Seq<char>, int> {
    last_index_map(domains, |d: EdgeDomainView| domain_id(d))
}

/// The node index maps each node id to the last node with that id.
pub proof fn lemma_node_index(nodes: Seq<ComputeNodeView>, k: Seq<char>)
    ensures
        node_index(nodes).contains_key(k) <==> exists|i: int| 0 <= i < nodes.len() && nodes[i].id == k,
        node_index(nodes).contains_key(k) ==> {
            let i = node_index(nodes)[k];
            &&& 0 <= i < nodes.len()
            &&& nodes[i].id == k
            &&& forall|j: int| i < j < nodes.len() ==> nodes[j].id != k
        },
{
    lemma_last_index_map(nodes, |n: ComputeNodeView| node_id(n), k);
}

/// The domain index maps each domain id to the last domain with that id.
pub proof fn lemma_domain_index(domains: Seq<EdgeDomainView>, k: Seq<char>)
    ensures
        domain_index(domains).contains_key(k) <==> exists|i: int| 0 <= i < domains.len() && domains[i].id == k,
        domain_index(domains).contains_key(k) ==> {
            let i = domain_index(domains)[k];
            &&& 0 <= i < domains.len()
            &&& domains[i].id == k
        },
{
    lemma_last_index_map(domains, |d: EdgeDomainView| domain_id(d), k);
}

/// For each node id, the name of the last node with that id.
pub open spec fn spec_node_names(nodes: Seq<ComputeNodeView>) -> Map<Seq<char>, Seq<char>> {
    Map::new(
        |k: Seq<char>| node_index(nodes).contains_key(k),
        |k: Seq<char>| nodes[node_index(nodes)[k]].name,
    )
}

impl EdgeDomainGroup {
    /// An empty topology.
    pub fn new() -> (r: Self)
        ensures
            r@.edge_domains.len() == 0,
            r@.compute_nodes.len() == 0,
            r@.compute_node_edges.len() == 0,
    {
        EdgeDomainGroup {
            edge_domains: Vec::new(),
            compute_nodes: Vec::new(),
            compute_node_edges: Vec::new(),
        }
    }

    /// The name of each node, by its id; where ids repeat, the last node wins.
    pub fn node_map(&self) -> (r: StringHashMap<String>)
        ensures
            r@.dom() == spec_node_names(self@.compute_nodes).dom(),
            forall|k: Seq<char>| #[trigger]
                r@.contains_key(k) ==> r@[k]@ == spec_node_names(self@.compute_nodes)[k],
    {
        let mut map: StringHashMap<String> = StringHashMap::new();
        let ghost nodes = self@.compute_nodes;
        let ghost key = |n: ComputeNodeView| node_id(n);
        let n = self.compute_nodes.len();
        let mut i: usize = 0;
        while i < n
            invariant
                n == self.compute_nodes@.len(),
                nodes == self@.compute_nodes,
                key == (|n: ComputeNodeView| node_id(n)),
                i <= n,
                map@.dom() == last_index_map(nodes.take(i as int), key).dom(),
                forall|k: Seq<char>| #[trigger]
                    map@.contains_key(k) ==> map@[k]@ == nodes[last_index_map(
                        nodes.take(i as int),
                        key,
                    )[k]].name,
            decreases n - i,
        {
            let node = &self.compute_nodes[i];
            map.insert(node.id.clone(), node.name.clone());
            proof {
                let p = nodes.take(i as int);
                let q = nodes.take(i + 1);
                assert(q.drop_last() =~= p);
                assert(q.last() == nodes[i as int]);
                assert(last_index_map(q, key) == last_index_map(p, key).insert(
                    node_id(nodes[i as int]),
                    i as int,
                ));
            }
            i += 1;
        }
        proof {
            assert(nodes.take(n as int) =~= nodes);
        }
        map
    }
}

/// Reads a 0 or 1 as a boolean; `None` for any other integer.
pub fn bool_from_int(v: i64) -> (r: Option<bool>)
    ensures
        r == (if v == 0 {
            Some(false)
        } else if v == 1 {
            Some(true)
        } else {
            None
        }),
{
    if v < 0 || v > 1 {
        None
    } else {
        Some(v == 1)
    }
}

} // verus!
