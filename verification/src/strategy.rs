use crate::text::str_eq;
use vstd::prelude::*;

verus! {

/// The monitoring strategy that measures the delivery rate of a flow's
/// edges.
pub struct FlowEdgeStrategy;

/// The monitoring strategies.
#[derive(PartialEq, Eq, Structural, Clone, Copy, Debug)]
pub enum StrategyKind {
    /// Measures bandwidth and delay between nodes.
    NetEdge,
    /// Measures the delivery rate of a flow's edges.
    FlowEdge,
}

/// The strategy that a monitor type names, if any.
pub open spec fn spec_strategy_kind(monitor_type: Seq<char>) -> Option<StrategyKind> {
    if monitor_type == "NetEdge"@ {
        Some(StrategyKind::NetEdge)
    } else if monitor_type == "FlowEdge"@ {
        Some(StrategyKind::FlowEdge)
    } else {
        None
    }
}

/// The strategy that a monitor type names, if any.
pub fn strategy_kind(monitor_type: &str) -> (r: Option<StrategyKind>)
    ensures
        r == spec_strategy_kind(monitor_type@),
{
    if str_eq(monitor_type, "NetEdge") {
        Some(StrategyKind::NetEdge)
    } else if str_eq(monitor_type, "FlowEdge") {
        Some(StrategyKind::FlowEdge)
    } else {
        None
    }
}

/// The strategy that a monitor type names.
pub fn parse_strategy(monitor_type: &String) -> (r: StrategyKind)
    requires
        spec_strategy_kind(monitor_type@) is Some,
    ensures
        Some(r) == spec_strategy_kind(monitor_type@),
{
    match strategy_kind(monitor_type.as_str()) {
        Some(k) => k,
        None => {
            assert(false);
            StrategyKind::NetEdge
        },
    }
}

/// The kinds of messages that arrive over a websocket.
#[derive(PartialEq, Eq, Structural, Clone, Copy, Debug)]
pub enum MessageKind {
    /// Network measurements to store.
    NetInfo,
    /// Targets for the monitor to measure.
    SetTarget,
}

/// The message kind that a message's type names, if any.
pub open spec fn spec_message_kind(msg_type: Seq<char>) -> Option<MessageKind> {
    if msg_type == "NetInfo"@ {
        Some(MessageKind::NetInfo)
    } else if msg_type == "SetTarget"@ {
        Some(MessageKind::SetTarget)
    } else {
        None
    }
}

/// The message kind that a message's type names, if any.
pub fn message_kind(msg_type: &str) -> (r: Option<MessageKind>)
    ensures
        r == spec_message_kind(msg_type@),
{
    if str_eq(msg_type, "NetInfo") {
        Some(MessageKind::NetInfo)
    } else if str_eq(msg_type, "SetTarget") {
        Some(MessageKind::SetTarget)
    } else {
        None
    }
}

} // verus!
