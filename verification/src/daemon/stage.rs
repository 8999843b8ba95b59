use crate::text::str_eq;
use vstd::prelude::*;

verus! {

/// The stages of the daemon; each stage has a chain of tasks.
#[derive(PartialEq, Eq, Structural, Clone, Copy, Debug, Hash)]
pub enum Stage {
    Init,
    Deploy,
    Run,
    Rest,
    Stop,
}

/// The signals that the daemon receives.
#[derive(PartialEq, Eq, Structural, Clone, Copy, Debug, Hash)]
pub enum Signal {
    Stop,
    Start,
    Redeploy,
    Rest,
    Quit,
    NoSignal,
}

/// Records `stage` as the daemon's current stage.
pub fn set_stage(current: &mut Stage, stage: Stage)
    ensures
        *final(current) == stage,
{
    *current = stage;
}

/// Reads the daemon's current stage.
pub fn get_stage(current: &Stage) -> (r: Stage)
    ensures
        r == *current,
{
    *current
}

/// The name of a stage, as the stage query reports it.
pub open spec fn spec_stage_name(stage: Stage) -> Seq<char> {
    match stage {
        Stage::Init => "Init"@,
        Stage::Deploy => "Deploy"@,
        Stage::Run => "Run"@,
        Stage::Rest => "Rest"@,
        Stage::Stop => "Stop"@,
    }
}

/// The name of a stage, as the stage query reports it.
pub fn stage_name(stage: Stage) -> (r: &'static str)
    ensures
        r@ == spec_stage_name(stage),
{
    match stage {
        Stage::Init => "Init",
        Stage::Deploy => "Deploy",
        Stage::Run => "Run",
        Stage::Rest => "Rest",
        Stage::Stop => "Stop",
    }
}

/// The signal that a request's `type` parameter names.
pub open spec fn spec_parse_signal(signal_type: Option<Seq<char>>) -> Option<Signal> {
    match signal_type {
        None => None,
        Some(t) => if t == "stop"@ {
            Some(Signal::Stop)
        } else if t == "start"@ {
            Some(Signal::Start)
        } else if t == "redeploy"@ {
            Some(Signal::Redeploy)
        } else if t == "rest"@ {
            Some(Signal::Rest)
        } else {
            None
        },
    }
}

/// Reads the signal that a request's `type` parameter names; `None` when the
/// parameter is missing or names no signal that a request may send.
pub fn parse_signal(signal_type: Option<&str>) -> (r: Option<Signal>)
    ensures
        r == spec_parse_signal(
            match signal_type {
                Some(t) => Some(t@),
                None => None,
            },
        ),
{
    match signal_type {
        None => None,
        Some(t) => {
            if str_eq(t, "stop") {
                Some(Signal::Stop)
            } else if str_eq(t, "start") {
                Some(Signal::Start)
            } else if str_eq(t, "redeploy") {
                Some(Signal::Redeploy)
            } else if str_eq(t, "rest") {
                Some(Signal::Rest)
            } else {
                None
            }
        },
    }
}

} // verus!
