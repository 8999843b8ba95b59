use crate::error::ServiceError;
use crate::model::flow::{instances_view, FlowInstance, FlowInstanceView, FlowOperatorView};
use crate::text::{parse_auth, spec_parse_auth, str_eq};
use vstd::prelude::*;

verus! {

/// The index of the first instance with id `id`.
pub open spec fn first_instance(s: Seq<FlowInstanceView>, id: Seq<char>) -> Option<int>
    decreases s.len(),
{
    if s.len() == 0 {
        None
    } else {
        match first_instance(s.drop_last(), id) {
            Some(i) => Some(i),
            None => if s.last().instance_id == id {
                Some(s.len() - 1)
            } else {
                None
            },
        }
    }
}

/// The index of the first operator with number `op_id`.
pub open spec fn first_operator(s: Seq<FlowOperatorView>, op_id: u32) -> Option<int>
    decreases s.len(),
{
    if s.len() == 0 {
        None
    } else {
        match first_operator(s.drop_last(), op_id) {
            Some(i) => Some(i),
            None => if s.last().id == op_id {
                Some(s.len() - 1)
            } else {
                None
            },
        }
    }
}

/// Whether an operator of this type is a sink: a `sink` is, a `source` or an
/// `operator` is not, and any other type is an error.
pub open spec fn spec_operator_kind(t: Seq<char>) -> Result<bool, ServiceError> {
    if t == "sink"@ {
        Ok(true)
    } else if t == "source"@ || t == "operator"@ {
        Ok(false)
    } else {
        Err(ServiceError::Flow)
    }
}

/// Whether operator `op_id` of instance `inst` is a sink, read from the held
/// instances: the first instance with that id, and its first operator with
/// that number.
pub open spec fn spec_is_sink(state: Option<Seq<FlowInstanceView>>, op_id: u32, inst: Seq<char>) -> Result<bool, ServiceError> {
    match state {
        None => Err(ServiceError::Flow),
        Some(s) => match first_instance(s, inst) {
            None => Err(ServiceError::Flow),
            Some(i) => match first_operator(s[i].operators, op_id) {
                None => Err(ServiceError::Flow),
                Some(j) => spec_operator_kind(s[i].operators[j].operator_type),
            },
        },
    }
}

/// Holds the flow instances that are assigned to the edge.
pub struct FlowService {
    pub state: Option<Vec<FlowInstance>>,
}

impl FlowService {
    /// The plain values of the held instances.
    pub open spec fn state_view(&self) -> Option<Seq<FlowInstanceView>> {
        match self.state {
            Some(v) => Some(instances_view(v@)),
            None => None,
        }
    }

    /// A service that holds no instances.
    pub fn new() -> (r: Self)
        ensures
            r.state is None,
    {
        FlowService { state: None }
    }

    /// Holds `instances`.
    pub fn set_state(self, instances: Vec<FlowInstance>) -> (r: Result<Self, ServiceError>)
        ensures
            r matches Ok(s) && s.state == Some(instances),
    {
        let mut s = self;
        s.state = Some(instances);
        Ok(s)
    }

    /// Whether the operator that an authentication string names is a sink.
    /// The string is `<instance>-<part>-<operator>`; the instance is the
    /// first held one with that id and the operator its first with that
    /// number.
    pub fn is_sink(&self, auth: &String) -> (r: Result<bool, ServiceError>)
        requires
            spec_parse_auth(auth@) is Some,
        ensures
            match spec_parse_auth(auth@) {
                Some((op_id, inst)) => r == spec_is_sink(self.state_view(), op_id, inst),
                None => false,
            },
    {
        let (op_id, instance_id) = match parse_auth(auth.as_str()) {
            Some(p) => p,
            None => {
                assert(false);
                return Err(ServiceError::Flow);
            },
        };
        let instances = match &self.state {
            None => {
                return Err(ServiceError::Flow);
            },
            Some(v) => v,
        };
        let ghost s = instances_view(instances@);
        let n = instances.len();
        let mut i: usize = 0;
        while i < n
            invariant
                n == instances@.len(),
                s == instances_view(instances@),
                self.state_view() == Some(s),
                spec_parse_auth(auth@) == Some((op_id, instance_id@)),
                i <= n,
                first_instance(s.take(i as int), instance_id@) is None,
            decreases n - i,
        {
            proof {
                assert(s.take(i + 1).drop_last() =~= s.take(i as int));
                assert(s[i as int] == instances@[i as int]@);
            }
            if instances[i].instance_id == instance_id {
                let ops = &instances[i].operators;
                proof {
                    assert(first_instance(s.take(i + 1), instance_id@) == Some(i as int));
                    assert(s.take(i + 1).len() == i + 1);
                    lemma_first_instance_prefix(s, instance_id@, (i + 1) as int);
                }
                let ghost os = s[i as int].operators;
                let m = ops.len();
                let mut j: usize = 0;
                while j < m
                    invariant
                        m == ops@.len(),
                        os == crate::model::flow::operators_view(ops@),
                        self.state_view() == Some(s),
                        spec_parse_auth(auth@) == Some((op_id, instance_id@)),
                        first_instance(s, instance_id@) == Some(i as int),
                        i < s.len(),
                        os == s[i as int].operators,
                        j <= m,
                        first_operator(os.take(j as int), op_id) is None,
                    decreases m - j,
                {
                    proof {
                        assert(os.take(j + 1).drop_last() =~= os.take(j as int));
                        assert(os[j as int] == ops@[j as int]@);
                    }
                    if ops[j].id == op_id {
                        proof {
                            lemma_first_operator_prefix(os, op_id, (j + 1) as int);
                        }
                        let t = ops[j].operator_type.as_str();
                        if str_eq(t, "sink") {
                            return Ok(true);
                        } else if str_eq(t, "source") || str_eq(t, "operator") {
                            return Ok(false);
                        } else {
                            return Err(ServiceError::Flow);
                        }
                    }
                    j += 1;
                }
                proof {
                    assert(os.take(m as int) =~= os);
                }
                return Err(ServiceError::Flow);
            }
            i += 1;
        }
        proof {
            assert(s.take(n as int) =~= s);
        }
        Err(ServiceError::Flow)
    }
}

/// A first match in a prefix is the first match of the whole list.
proof fn lemma_first_instance_prefix(s: Seq<FlowInstanceView>, id: Seq<char>, k: int)
    requires
        0 <= k <= s.len(),
        first_instance(s.take(k), id) is Some,
    ensures
        first_instance(s, id) == first_instance(s.take(k), id),
    decreases s.len() - k,
{
    if k < s.len() {
        assert(s.take(k + 1).drop_last() =~= s.take(k));
        lemma_first_instance_prefix(s, id, k + 1);
    } else {
        assert(s.take(k) =~= s);
    }
}

/// A first match in a prefix is the first match of the whole list.
proof fn lemma_first_operator_prefix(s: Seq<FlowOperatorView>, op_id: u32, k: int)
    requires
        0 <= k <= s.len(),
        first_operator(s.take(k), op_id) is Some,
    ensures
        first_operator(s, op_id) == first_operator(s.take(k), op_id),
    decreases s.len() - k,
{
    if k < s.len() {
        assert(s.take(k + 1).drop_last() =~= s.take(k));
        lemma_first_operator_prefix(s, op_id, k + 1);
    } else {
        assert(s.take(k) =~= s);
    }
}

} // verus!
