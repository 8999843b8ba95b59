use crate::daemon::stage::{Signal, Stage};
use crate::daemon::task_chain::{chain_spec, task_map, TaskKind, TaskMap};
use vstd::prelude::*;

verus! {

/// Largest number of consecutive failures of a task that the daemon retries.
pub const MAX_FAIL_TIME: u32 = 10;

/// Seconds that the daemon waits for a signal while it still has work.
pub const SIGNAL_TIMEOUT_SECS: u64 = 3;

/// What the daemon does after looking at its task chain.
#[derive(PartialEq, Eq, Structural, Clone, Copy, Debug)]
pub enum Step {
    /// The task to run next; its result goes to `Daemon::report`.
    Run(TaskKind),
    /// The chain is done and the daemon moved on to this stage.
    Advanced(Stage),
    /// The chain is done and no stage follows it.
    Exhausted,
}

/// What the daemon does after a task has run.
#[derive(PartialEq, Eq, Structural, Clone, Copy, Debug)]
pub enum TaskOutcome {
    /// The task succeeded.
    Done,
    /// The task failed; sleep this many seconds, then retry it.
    Retry(u64),
    /// The task failed too often; the daemon stops.
    GiveUp,
}

/// How the daemon waits for the next signal.
#[derive(PartialEq, Eq, Structural, Clone, Copy, Debug)]
pub enum Wait {
    /// Wait until a signal comes.
    Block,
    /// Wait at most this many seconds.
    Timeout(u64),
}

/// What the daemon does with a signal.
#[derive(PartialEq, Eq, Structural, Clone, Copy, Debug)]
pub enum SignalOutcome {
    /// The daemon stops.
    Abort,
    /// The signal changes nothing.
    Ignored,
    /// The daemon switched to this stage and starts its chain.
    Switched(Stage),
}

/// The state of the daemon, as plain values.
pub struct DaemonView {
    /// The stage whose chain runs.
    pub stage: Stage,
    /// How many tasks of the chain have been taken.
    pub pos: nat,
    /// The task that failed last and is to be retried.
    pub failed: Option<TaskKind>,
    /// How many times in a row a task has failed.
    pub failed_time: nat,
    /// Whether the chain is done with no stage after it.
    pub no_more_task: bool,
}

/// The state in which the daemon starts.
pub open spec fn initial_view() -> DaemonView {
    DaemonView { stage: Stage::Init, pos: 0, failed: None, failed_time: 0, no_more_task: false }
}

/// The states that the daemon can be in while it runs.
pub open spec fn view_wf(d: DaemonView) -> bool {
    &&& d.pos <= chain_spec(d.stage).tasks.len()
    &&& d.failed_time <= MAX_FAIL_TIME
}

/// The daemon's next step: the failed task if there is one, else the chain's
/// next task. The chain's position moves on in both cases, since the chain's
/// next task is taken even while a failed task is retried. Once the chain is
/// done, the daemon moves on to the stage after it, if any.
pub open spec fn spec_next_step(d: DaemonView) -> (DaemonView, Step) {
    let chain = chain_spec(d.stage);
    let pulled = if d.pos < chain.tasks.len() {
        Some(chain.tasks[d.pos as int])
    } else {
        None
    };
    let pos = if d.pos < chain.tasks.len() {
        d.pos + 1
    } else {
        d.pos
    };
    let task = match d.failed {
        Some(t) => Some(t),
        None => pulled,
    };
    match task {
        Some(t) => (DaemonView { pos, ..d }, Step::Run(t)),
        None => match chain.next {
            Some(s) => (DaemonView { stage: s, pos: 0, no_more_task: false, ..d }, Step::Advanced(s)),
            None => (DaemonView { no_more_task: true, ..d }, Step::Exhausted),
        },
    }
}

/// The daemon's state and decision after `task` ran: a success clears the
/// failure; a failure is counted, and the daemon retries the task after ten
/// seconds per failure in a row, or gives up once the count passes the limit.
pub open spec fn spec_report(d: DaemonView, task: TaskKind, succeeded: bool) -> (DaemonView, TaskOutcome) {
    if succeeded {
        (DaemonView { failed: None, failed_time: 0, ..d }, TaskOutcome::Done)
    } else {
        let count = d.failed_time + 1;
        let next = DaemonView { failed: Some(task), failed_time: count, ..d };
        if count > MAX_FAIL_TIME {
            (next, TaskOutcome::GiveUp)
        } else {
            (next, TaskOutcome::Retry((10 * count) as u64))
        }
    }
}

/// How the daemon waits for a signal: without limit once its chain is done,
/// otherwise for a few seconds.
pub open spec fn spec_wait_mode(d: DaemonView) -> Wait {
    if d.no_more_task {
        Wait::Block
    } else {
        Wait::Timeout(SIGNAL_TIMEOUT_SECS)
    }
}

/// The daemon's state and decision on a signal: `Quit` stops it, `NoSignal`
/// changes nothing, and another signal switches to the stage that the current
/// chain maps it to, dropping the failed task, or changes nothing when the
/// chain maps it to no stage.
pub open spec fn spec_on_signal(d: DaemonView, signal: Signal) -> (DaemonView, SignalOutcome) {
    match signal {
        Signal::Quit => (d, SignalOutcome::Abort),
        Signal::NoSignal => (d, SignalOutcome::Ignored),
        _ => {
            let transfer = chain_spec(d.stage).transfer;
            if transfer.contains_key(signal) {
                let s = transfer[signal];
                (
                    DaemonView { stage: s, pos: 0, no_more_task: false, failed: None, ..d },
                    SignalOutcome::Switched(s),
                )
            } else {
                (d, SignalOutcome::Ignored)
            }
        },
    }
}

/// The daemon's decision state: which chain runs, how far it got, and the
/// failed task that is to be retried.
pub struct Daemon {
    stage: Stage,
    pos: usize,
    failed_task: Option<TaskKind>,
    failed_time: u32,
    no_more_task: bool,
    chains: TaskMap,
}

impl View for Daemon {
    type V = DaemonView;

    closed spec fn view(&self) -> DaemonView {
        DaemonView {
            stage: self.stage,
            pos: self.pos as nat,
            failed: self.failed_task,
            failed_time: self.failed_time as nat,
            no_more_task: self.no_more_task,
        }
    }
}

impl Daemon {
    /// Whether the daemon is in a state in which it runs.
    pub closed spec fn wf(&self) -> bool {
        &&& self.chains.is_standard()
        &&& view_wf(self@)
    }

    /// The daemon in its first state: at the start of the `Init` chain.
    pub fn new() -> (r: Self)
        ensures
            r.wf(),
            r@ == initial_view(),
    {
        Daemon {
            stage: Stage::Init,
            pos: 0,
            failed_task: None,
            failed_time: 0,
            no_more_task: false,
            chains: task_map(),
        }
    }

    /// The stage whose chain runs.
    pub fn stage(&self) -> (r: Stage)
        ensures
            r == self@.stage,
    {
        self.stage
    }

    /// How many times in a row a task has failed.
    pub fn failed_time(&self) -> (r: u32)
        ensures
            r == self@.failed_time,
    {
        self.failed_time
    }

    /// Decides the daemon's next step.
    pub fn next_step(&mut self) -> (r: Step)
        requires
            old(self).wf(),
        ensures
            final(self).wf(),
            (final(self)@, r) == spec_next_step(old(self)@),
    {
        let chain = self.chains.get(self.stage);
        let tasks = chain.iter();
        let pulled = if self.pos < tasks.len() {
            let t = tasks[self.pos];
            self.pos = self.pos + 1;
            Some(t)
        } else {
            None
        };
        let task = match self.failed_task {
            Some(t) => Some(t),
            None => pulled,
        };
        match task {
            Some(t) => Step::Run(t),
            None => match chain.next_stage() {
                Some(s) => {
                    let s = *s;
                    self.stage = s;
                    self.pos = 0;
                    self.no_more_task = false;
                    Step::Advanced(s)
                },
                None => {
                    self.no_more_task = true;
                    Step::Exhausted
                },
            },
        }
    }

    /// Takes the result of running `task` and decides what follows.
    pub fn report(&mut self, task: TaskKind, succeeded: bool) -> (r: TaskOutcome)
        requires
            old(self).wf(),
        ensures
            (final(self)@, r) == spec_report(old(self)@, task, succeeded),
            r != TaskOutcome::GiveUp ==> final(self).wf(),
    {
        if succeeded {
            self.failed_task = None;
            self.failed_time = 0;
            TaskOutcome::Done
        } else {
            self.failed_task = Some(task);
            self.failed_time = self.failed_time + 1;
            if self.failed_time > MAX_FAIL_TIME {
                TaskOutcome::GiveUp
            } else {
                TaskOutcome::Retry(10 * (self.failed_time as u64))
            }
        }
    }

    /// How the daemon waits for the next signal.
    pub fn wait_mode(&self) -> (r: Wait)
        ensures
            r == spec_wait_mode(self@),
    {
        if self.no_more_task {
            Wait::Block
        } else {
            Wait::Timeout(SIGNAL_TIMEOUT_SECS)
        }
    }

    /// Takes a signal and decides what follows.
    pub fn on_signal(&mut self, signal: Signal) -> (r: SignalOutcome)
        requires
            old(self).wf(),
        ensures
            final(self).wf(),
            (final(self)@, r) == spec_on_signal(old(self)@, signal),
    {
        match signal {
            Signal::Quit => SignalOutcome::Abort,
            Signal::NoSignal => SignalOutcome::Ignored,
            _ => {
                match self.chains.get(self.stage).transfer_stage(signal) {
                    Some(s) => {
                        self.stage = s;
                        self.pos = 0;
                        self.no_more_task = false;
                        self.failed_task = None;
                        SignalOutcome::Switched(s)
                    },
                    None => SignalOutcome::Ignored,
                }
            },
        }
    }
}

/// A task that failed, and is retried, is the daemon's next step again.
pub proof fn law_failed_task_runs_next(d: DaemonView, task: TaskKind)
    requires
        view_wf(d),
        spec_report(d, task, false).1 != TaskOutcome::GiveUp,
    ensures
        spec_next_step(spec_report(d, task, false).0).1 == Step::Run(task),
{
}

/// The daemon gives up on a task exactly when it fails for the
/// (`MAX_FAIL_TIME` + 1)-th time in a row; before that it retries it after
/// ten seconds per failure in a row.
pub proof fn law_give_up_after_max_failures(d: DaemonView, task: TaskKind)
    requires
        view_wf(d),
    ensures
        spec_report(d, task, false).1 == TaskOutcome::GiveUp <==> d.failed_time == MAX_FAIL_TIME,
        d.failed_time < MAX_FAIL_TIME ==> spec_report(d, task, false).1 == TaskOutcome::Retry(
            (10 * (d.failed_time + 1)) as u64,
        ),
{
}

/// A success after failures clears the failure count and the failed task.
pub proof fn law_success_clears_failures(d: DaemonView, task: TaskKind)
    ensures
        spec_report(d, task, true).0.failed_time == 0,
        spec_report(d, task, true).0.failed is None,
        spec_report(d, task, true).1 == TaskOutcome::Done,
{
}

/// A `Quit` signal always stops the daemon; a `Stop` signal moves it to the
/// `Stop` stage from any other stage; a `Start` signal moves it from the
/// `Stop` stage back to `Init`.
pub proof fn law_stop_and_start(d: DaemonView)
    ensures
        spec_on_signal(d, Signal::Quit).1 == SignalOutcome::Abort,
        d.stage != Stage::Stop ==> spec_on_signal(d, Signal::Stop).1 == SignalOutcome::Switched(
            Stage::Stop,
        ),
        d.stage == Stage::Stop ==> spec_on_signal(d, Signal::Start).1 == SignalOutcome::Switched(
            Stage::Init,
        ),
{
    match d.stage {
        Stage::Init => {},
        Stage::Deploy => {},
        Stage::Run => {},
        Stage::Rest => {},
        Stage::Stop => {},
    }
}

/// Without failures, the daemon runs the tasks of its chain in order and
/// then moves on to the stage after the chain.
pub proof fn law_chain_runs_in_order(d: DaemonView)
    requires
        view_wf(d),
        d.failed is None,
    ensures
        d.pos < chain_spec(d.stage).tasks.len() ==> spec_next_step(d).1 == Step::Run(
            chain_spec(d.stage).tasks[d.pos as int],
        ) && spec_next_step(d).0.pos == d.pos + 1,
        d.pos == chain_spec(d.stage).tasks.len() ==> match chain_spec(d.stage).next {
            Some(s) => spec_next_step(d).1 == Step::Advanced(s) && spec_next_step(d).0.pos == 0
                && spec_next_step(d).0.stage == s,
            None => spec_next_step(d).1 == Step::Exhausted && spec_wait_mode(spec_next_step(d).0)
                == Wait::Block,
        },
{
}

/// The daemon moves on by itself only from `Init` to `Deploy` and from
/// `Deploy` to `Run`; from `Run`, `Rest` and `Stop` it never leaves without a
/// signal, and once the tasks of such a stage have run and none waits to be
/// retried, its next step is `Exhausted` and it then waits without limit.
pub proof fn law_stages_move_on_only_from_init_and_deploy(d: DaemonView)
    requires
        view_wf(d),
    ensures
        spec_next_step(d).1 matches Step::Advanced(s) ==> (d.stage == Stage::Init && s == Stage::Deploy)
            || (d.stage == Stage::Deploy && s == Stage::Run),
        d.stage == Stage::Run || d.stage == Stage::Rest || d.stage == Stage::Stop
            ==> spec_next_step(d).0.stage == d.stage,
        (d.stage == Stage::Run || d.stage == Stage::Rest || d.stage == Stage::Stop) && d.failed is None
            && d.pos == chain_spec(d.stage).tasks.len() ==> spec_next_step(d).1 == Step::Exhausted
            && spec_wait_mode(spec_next_step(d).0) == Wait::Block,
{
}

/// The signals move the daemon between stages as follows, and no other
/// signal moves it: from `Init`, `Stop` leads to `Stop`; from `Deploy`,
/// `Rest` to `Rest` and `Stop` to `Stop`; from `Run`, `Redeploy` to
/// `Deploy`, `Rest` to `Rest` and `Stop` to `Stop`; from `Rest`, `Redeploy`
/// to `Deploy` and `Stop` to `Stop`; from `Stop`, `Start` to `Init`. A switch
/// starts the new stage's chain from its first task, with no task to retry.
pub proof fn law_signal_moves(d: DaemonView, signal: Signal)
    ensures
        spec_on_signal(d, signal).1 == (match (d.stage, signal) {
            (_, Signal::Quit) => SignalOutcome::Abort,
            (Stage::Init, Signal::Stop) => SignalOutcome::Switched(Stage::Stop),
            (Stage::Deploy, Signal::Rest) => SignalOutcome::Switched(Stage::Rest),
            (Stage::Deploy, Signal::Stop) => SignalOutcome::Switched(Stage::Stop),
            (Stage::Run, Signal::Redeploy) => SignalOutcome::Switched(Stage::Deploy),
            (Stage::Run, Signal::Rest) => SignalOutcome::Switched(Stage::Rest),
            (Stage::Run, Signal::Stop) => SignalOutcome::Switched(Stage::Stop),
            (Stage::Rest, Signal::Redeploy) => SignalOutcome::Switched(Stage::Deploy),
            (Stage::Rest, Signal::Stop) => SignalOutcome::Switched(Stage::Stop),
            (Stage::Stop, Signal::Start) => SignalOutcome::Switched(Stage::Init),
            _ => SignalOutcome::Ignored,
        }),
        spec_on_signal(d, signal).1 matches SignalOutcome::Switched(s) ==> {
            &&& spec_on_signal(d, signal).0.stage == s
            &&& spec_on_signal(d, signal).0.pos == 0
            &&& spec_on_signal(d, signal).0.failed is None
        },
        !(spec_on_signal(d, signal).1 is Switched) ==> spec_on_signal(d, signal).0 == d,
{
    assert(chain_spec(Stage::Init).transfer =~= map![Signal::Stop => Stage::Stop]);
}

/// The daemon waits for a signal without limit exactly when it found its
/// chain done with no stage after it; otherwise, and in particular while a
/// failed task waits to be retried, it waits at most a few seconds.
pub proof fn law_wait_blocks_only_when_done(d: DaemonView, task: TaskKind)
    ensures
        spec_wait_mode(d) == Wait::Block <==> d.no_more_task,
        !d.no_more_task ==> spec_wait_mode(d) == Wait::Timeout(SIGNAL_TIMEOUT_SECS),
        SIGNAL_TIMEOUT_SECS == 3,
        !d.no_more_task && spec_report(d, task, false).1 is Retry ==> spec_wait_mode(
            spec_report(d, task, false).0,
        ) == Wait::Timeout(3),
{
}

} // verus!
