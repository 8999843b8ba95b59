use crate::model::topo::{clone_opt, opt_view};
use vstd::prelude::*;

verus! {

/// A parameter or a return value of an operator, bound to a stream.
pub struct ParamDef {
    pub name: String,
    pub bind_stream: String,
}

/// The plain values of a parameter.
pub struct ParamDefView {
    pub name: Seq<char>,
    pub bind_stream: Seq<char>,
}

impl View for ParamDef {
    type V = ParamDefView;

    open spec fn view(&self) -> ParamDefView {
        ParamDefView { name: self.name@, bind_stream: self.bind_stream@ }
    }
}

/// The plain values of a list of parameters.
pub open spec fn params_view(s: Seq<ParamDef>) -> Seq<ParamDefView> {
    s.map_values(|p: ParamDef| p@)
}

/// Copies a list of parameters.
pub fn clone_params(s: &Vec<ParamDef>) -> (r: Vec<ParamDef>)
    ensures
        params_view(r@) == params_view(s@),
{
    let n = s.len();
    let mut r: Vec<ParamDef> = Vec::new();
    let mut i: usize = 0;
    while i < n
        invariant
            n == s@.len(),
            i <= n,
            r@.len() == i,
            forall|x: int| 0 <= x < i ==> #[trigger] r@[x]@ == s@[x]@,
        decreases n - i,
    {
        r.push(ParamDef { name: s[i].name.clone(), bind_stream: s[i].bind_stream.clone() });
        i += 1;
    }
    proof {
        assert(params_view(r@) =~= params_view(s@));
    }
    r
}

/// A stream from an output of one operator to an input of another.
pub struct StreamDef {
    pub from_operator_id: u32,
    pub from_operator_output_stream: String,
    pub to_operator_id: u32,
    pub to_operator_input_stream: String,
}

/// The plain values of a stream.
pub struct StreamDefView {
    pub from_operator_id: u32,
    pub from_operator_output_stream: Seq<char>,
    pub to_operator_id: u32,
    pub to_operator_input_stream: Seq<char>,
}

impl View for StreamDef {
    type V = StreamDefView;

    open spec fn view(&self) -> StreamDefView {
        StreamDefView {
            from_operator_id: self.from_operator_id,
            from_operator_output_stream: self.from_operator_output_stream@,
            to_operator_id: self.to_operator_id,
            to_operator_input_stream: self.to_operator_input_stream@,
        }
    }
}

/// An operator of a flow instance.
pub struct FlowOperator {
    /// The operator's number in its flow, counted from 1.
    pub id: u32,
    pub name: String,
    pub operator_id: String,
    pub operator_type: String,
    pub params: Vec<ParamDef>,
    pub returns: Vec<ParamDef>,
    /// The compute node that the operator is scheduled to.
    pub host_constraint: Option<String>,
    /// The host name that the operator's node selector names.
    pub node_selector_host: Option<String>,
    pub communicate_by_ip: Option<bool>,
}

/// The plain values of an operator.
pub struct FlowOperatorView {
    pub id: u32,
    pub name: Seq<char>,
    pub operator_id: Seq<char>,
    pub operator_type: Seq<char>,
    pub params: Seq<ParamDefView>,
    pub returns: Seq<ParamDefView>,
    pub host_constraint: Option<Seq<char>>,
    pub node_selector_host: Option<Seq<char>>,
    pub communicate_by_ip: Option<bool>,
}

impl View for FlowOperator {
    type V = FlowOperatorView;

    open spec fn view(&self) -> FlowOperatorView {
        FlowOperatorView {
            id: self.id,
            name: self.name@,
            operator_id: self.operator_id@,
            operator_type: self.operator_type@,
            params: params_view(self.params@),
            returns: params_view(self.returns@),
            host_constraint: opt_view(self.host_constraint),
            node_selector_host: opt_view(self.node_selector_host),
            communicate_by_ip: self.communicate_by_ip,
        }
    }
}

impl FlowOperator {
    /// Copies the operator.
    pub fn duplicate(&self) -> (r: Self)
        ensures
            r@ == self@,
    {
        FlowOperator {
            id: self.id,
            name: self.name.clone(),
            operator_id: self.operator_id.clone(),
            operator_type: self.operator_type.clone(),
            params: clone_params(&self.params),
            returns: clone_params(&self.returns),
            host_constraint: clone_opt(&self.host_constraint),
            node_selector_host: clone_opt(&self.node_selector_host),
            communicate_by_ip: self.communicate_by_ip,
        }
    }
}

/// The plain values of a list of operators.
pub open spec fn operators_view(s: Seq<FlowOperator>) -> Seq<FlowOperatorView> {
    s.map_values(|o: FlowOperator| o@)
}

/// The plain values of a list of streams.
pub open spec fn streams_view(s: Seq<StreamDef>) -> Seq<StreamDefView> {
    s.map_values(|o: StreamDef| o@)
}

/// A flow instance that is assigned to the edge.
pub struct FlowInstance {
    pub instance_id: String,
    pub version: String,
    pub robot_id: String,
    pub edge_device_id: String,
    pub operators: Vec<FlowOperator>,
    pub streams: Vec<StreamDef>,
}

/// The plain values of a flow instance.
pub struct FlowInstanceView {
    pub instance_id: Seq<char>,
    pub version: Seq<char>,
    pub robot_id: Seq<char>,
    pub edge_device_id: Seq<char>,
    pub operators: Seq<FlowOperatorView>,
    pub streams: Seq<StreamDefView>,
}

impl View for FlowInstance {
    type V = FlowInstanceView;

    open spec fn view(&self) -> FlowInstanceView {
        FlowInstanceView {
            instance_id: self.instance_id@,
            version: self.version@,
            robot_id: self.robot_id@,
            edge_device_id: self.edge_device_id@,
            operators: operators_view(self.operators@),
            streams: streams_view(self.streams@),
        }
    }
}

impl FlowInstance {
    /// A copy of the instance with other operators.
    pub fn with_operators(&self, operators: Vec<FlowOperator>) -> (r: FlowInstance)
        ensures
            r@ == (FlowInstanceView { operators: operators_view(operators@), ..self@ }),
    {
        let n = self.streams.len();
        let mut streams: Vec<StreamDef> = Vec::new();
        let mut i: usize = 0;
        while i < n
            invariant
                n == self.streams@.len(),
                i <= n,
                streams@.len() == i,
                forall|x: int| 0 <= x < i ==> #[trigger] streams@[x]@ == self.streams@[x]@,
            decreases n - i,
        {
            let st = &self.streams[i];
            streams.push(
                StreamDef {
                    from_operator_id: st.from_operator_id,
                    from_operator_output_stream: st.from_operator_output_stream.clone(),
                    to_operator_id: st.to_operator_id,
                    to_operator_input_stream: st.to_operator_input_stream.clone(),
                },
            );
            i += 1;
        }
        proof {
            assert(streams_view(streams@) =~= streams_view(self.streams@));
        }
        FlowInstance {
            instance_id: self.instance_id.clone(),
            version: self.version.clone(),
            robot_id: self.robot_id.clone(),
            edge_device_id: self.edge_device_id.clone(),
            operators,
            streams,
        }
    }
}

/// The plain values of a list of flow instances.
pub open spec fn instances_view(s: Seq<FlowInstance>) -> Seq<FlowInstanceView> {
    s.map_values(|i: FlowInstance| i@)
}

/// A link of a flow definition: from an output port of one role to an input
/// port of another; roles are counted from 1, ports from 0.
#[derive(Clone, Copy)]
pub struct FlowLink {
    pub from_role_id: u32,
    pub from_role_output_port: u32,
    pub to_role_id: u32,
    pub to_role_input_port: u32,
}

/// A flow definition as the flow store holds it.
pub struct FlowDefOrigin {
    pub version: String,
    pub robot_id: String,
    pub edge_device_id: String,
    pub roles: Vec<FlowOperator>,
    pub links: Vec<FlowLink>,
}

/// The plain values of a flow definition.
pub struct FlowDefOriginView {
    pub version: Seq<char>,
    pub robot_id: Seq<char>,
    pub edge_device_id: Seq<char>,
    pub roles: Seq<FlowOperatorView>,
    pub links: Seq<FlowLink>,
}

impl View for FlowDefOrigin {
    type V = FlowDefOriginView;

    open spec fn view(&self) -> FlowDefOriginView {
        FlowDefOriginView {
            version: self.version@,
            robot_id: self.robot_id@,
            edge_device_id: self.edge_device_id@,
            roles: operators_view(self.roles@),
            links: self.links@,
        }
    }
}

/// The record of one operator's deployment to a compute node.
pub struct FlowInstanceDeploy {
    pub id: String,
    pub operator_index: u32,
    pub operator_id: String,
    pub compute_node_id: String,
}

/// The plain values of a deployment record.
pub struct FlowInstanceDeployView {
    pub id: Seq<char>,
    pub operator_index: u32,
    pub operator_id: Seq<char>,
    pub compute_node_id: Seq<char>,
}

impl View for FlowInstanceDeploy {
    type V = FlowInstanceDeployView;

    open spec fn view(&self) -> FlowInstanceDeployView {
        FlowInstanceDeployView {
            id: self.id@,
            operator_index: self.operator_index,
            operator_id: self.operator_id@,
            compute_node_id: self.compute_node_id@,
        }
    }
}

} // verus!
