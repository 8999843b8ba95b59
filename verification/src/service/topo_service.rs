use crate::error::ServiceError;
use crate::model::topo::{ComputeNode, ComputeNodeEdge, EdgeDomain, EdgeDomainGroup, EdgeDomainGroupView};
use crate::service::topo_order::{compute_topo_order, spec_topo_order, TopoError};
use vstd::prelude::*;

verus! {

/// One entry of a topology payload, as the payload's reader found it.
pub enum PayloadField<T> {
    /// The payload has no entry under the key.
    Missing,
    /// The entry does not have the expected shape.
    Malformed,
    /// The entry, read.
    Parsed(T),
}

/// A topology payload, as its reader found it.
pub enum TopoPayload {
    /// The payload is not an object.
    NotObject,
    /// The payload is an object with these entries.
    Object {
        edge_domains: PayloadField<Vec<EdgeDomain>>,
        compute_nodes: PayloadField<Vec<ComputeNode>>,
        compute_node_edges: PayloadField<Vec<ComputeNodeEdge>>,
    },
}

/// The error of an entry, if it has one.
pub open spec fn field_error<T>(f: PayloadField<T>) -> Option<ServiceError> {
    match f {
        PayloadField::Missing => Some(ServiceError::KeyNotFound),
        PayloadField::Malformed => Some(ServiceError::Format),
        PayloadField::Parsed(_) => None,
    }
}

/// The error of a payload, if it has one: the first entry's, in the order
/// edge domains, compute nodes, edges.
pub open spec fn payload_error(p: TopoPayload) -> Option<ServiceError> {
    match p {
        TopoPayload::NotObject => Some(ServiceError::Format),
        TopoPayload::Object { edge_domains, compute_nodes, compute_node_edges } => {
            if field_error(edge_domains) is Some {
                field_error(edge_domains)
            } else if field_error(compute_nodes) is Some {
                field_error(compute_nodes)
            } else {
                field_error(compute_node_edges)
            }
        },
    }
}

/// Holds a topology while it is parsed, put in order and stored.
pub struct TopoService {
    pub state: Option<EdgeDomainGroup>,
}

impl TopoService {
    /// A service that holds no topology.
    pub fn new() -> (r: Self)
        ensures
            r.state is None,
    {
        TopoService { state: None }
    }

    /// Takes the topology of a payload; fails with the payload's error.
    pub fn parse(self, payload: TopoPayload) -> (r: Result<Self, ServiceError>)
        ensures
            payload_error(payload) is Some ==> r == Err::<Self, ServiceError>(payload_error(payload)->0),
            payload_error(payload) is None ==> (r matches Ok(s) && match payload {
                TopoPayload::Object {
                    edge_domains: PayloadField::Parsed(edge_domains),
                    compute_nodes: PayloadField::Parsed(compute_nodes),
                    compute_node_edges: PayloadField::Parsed(compute_node_edges),
                } => s.state == Some(EdgeDomainGroup { edge_domains, compute_nodes, compute_node_edges }),
                _ => false,
            }),
    {
        let mut s = self;
        match payload {
            TopoPayload::NotObject => Err(ServiceError::Format),
            TopoPayload::Object { edge_domains, compute_nodes, compute_node_edges } => {
                let edge_domains = match edge_domains {
                    PayloadField::Missing => {
                        return Err(ServiceError::KeyNotFound);
                    },
                    PayloadField::Malformed => {
                        return Err(ServiceError::Format);
                    },
                    PayloadField::Parsed(v) => v,
                };
                let compute_nodes = match compute_nodes {
                    PayloadField::Missing => {
                        return Err(ServiceError::KeyNotFound);
                    },
                    PayloadField::Malformed => {
                        return Err(ServiceError::Format);
                    },
                    PayloadField::Parsed(v) => v,
                };
                let compute_node_edges = match compute_node_edges {
                    PayloadField::Missing => {
                        return Err(ServiceError::KeyNotFound);
                    },
                    PayloadField::Malformed => {
                        return Err(ServiceError::Format);
                    },
                    PayloadField::Parsed(v) => v,
                };
                s.state = Some(EdgeDomainGroup { edge_domains, compute_nodes, compute_node_edges });
                Ok(s)
            },
        }
    }

    /// Puts the held topology in order; fails where there is none or it
    /// cannot be put in order.
    pub fn try_calc_topo_order(self) -> (r: Result<Self, TopoError>)
        ensures
            match self.state {
                None => r == Err::<Self, TopoError>(TopoError::MissingState),
                Some(g) => match r {
                    Ok(s) => match s.state {
                        Some(t) => spec_topo_order(g@) == Ok::<EdgeDomainGroupView, TopoError>(t@),
                        None => false,
                    },
                    Err(e) => spec_topo_order(g@) == Err::<EdgeDomainGroupView, TopoError>(e),
                },
            },
    {
        match &self.state {
            None => Err(TopoError::MissingState),
            Some(g) => match compute_topo_order(g) {
                Ok(t) => Ok(TopoService { state: Some(t) }),
                Err(e) => Err(e),
            },
        }
    }

    /// Puts the held topology in order.
    pub fn calc_topo_order(self) -> (r: Result<Self, ServiceError>)
        requires
            self.state matches Some(g) && spec_topo_order(g@) is Ok,
        ensures
            match (r, self.state) {
                (Ok(s), Some(g)) => match s.state {
                    Some(t) => spec_topo_order(g@) == Ok::<EdgeDomainGroupView, TopoError>(t@),
                    None => false,
                },
                _ => false,
            },
    {
        match self.try_calc_topo_order() {
            Ok(s) => Ok(s),
            Err(_) => {
                assert(false);
                Err(ServiceError::Format)
            },
        }
    }
}

} // verus!
