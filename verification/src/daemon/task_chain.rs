use crate::daemon::stage::{Signal, Stage};
use vstd::prelude::*;

verus! {

/// The tasks that the daemon knows how to run.
#[derive(PartialEq, Eq, Structural, Clone, Copy, Debug, Hash)]
pub enum TaskKind {
    /// Removes the traffic monitors from the cluster.
    Stop,
    /// Fetches the network topology and stores it in topological order.
    GetTopo,
    /// Labels the nodes and deploys the traffic monitors.
    DeployTrafficMonitor,
    /// Fetches the flow instances that are assigned to the edge.
    FetchFlows,
    /// Computes the scheduling of the fetched flow instances.
    CalcScheduling,
    /// Sends the scheduled flow instances to the deployment backend.
    DeployScheduling,
    /// Stops the running flow instances.
    StopInstances,
}

/// What a task chain is: its tasks in order, the stage that follows once
/// they have run, and the stage that each signal leads to.
pub struct TaskChainView {
    pub tasks: Seq<TaskKind>,
    pub next: Option<Stage>,
    pub transfer: Map<Signal, Stage>,
}

/// The map of signal transfers that a list of entries describes, where a later
/// entry for a signal replaces an earlier one.
pub open spec fn transfer_map(entries: Seq<(Signal, Stage)>) -> Map<Signal, Stage>
    decreases entries.len(),
{
    if entries.len() == 0 {
        Map::empty()
    } else {
        transfer_map(entries.drop_last()).insert(entries.last().0, entries.last().1)
    }
}

/// The tasks of one stage, the stage after them, and the signal transfers.
pub struct TaskChain {
    task_vec: Vec<TaskKind>,
    next_chain: Option<Stage>,
    signal_transfer: Vec<(Signal, Stage)>,
}

impl View for TaskChain {
    type V = TaskChainView;

    closed spec fn view(&self) -> TaskChainView {
        TaskChainView {
            tasks: self.task_vec@,
            next: self.next_chain,
            transfer: transfer_map(self.signal_transfer@),
        }
    }
}

/// The entry of `entries` at `i` decides the map's value for its signal when
/// no later entry names that signal.
proof fn lemma_transfer_map_last_entry(entries: Seq<(Signal, Stage)>, i: int)
    requires
        0 <= i < entries.len(),
        forall|j: int| i < j < entries.len() ==> entries[j].0 != entries[i].0,
    ensures
        transfer_map(entries).contains_key(entries[i].0),
        transfer_map(entries)[entries[i].0] == entries[i].1,
    decreases entries.len(),
{
    if i < entries.len() - 1 {
        let prefix = entries.drop_last();
        assert forall|j: int| i < j < prefix.len() implies prefix[j].0 != prefix[i].0 by {
            assert(prefix[j] == entries[j]);
        }
        lemma_transfer_map_last_entry(prefix, i);
    }
}

/// A signal that no entry names is not in the map.
proof fn lemma_transfer_map_absent(entries: Seq<(Signal, Stage)>, signal: Signal)
    requires
        forall|j: int| 0 <= j < entries.len() ==> entries[j].0 != signal,
    ensures
        !transfer_map(entries).contains_key(signal),
    decreases entries.len(),
{
    if entries.len() > 0 {
        let prefix = entries.drop_last();
        assert forall|j: int| 0 <= j < prefix.len() implies prefix[j].0 != signal by {
            assert(prefix[j] == entries[j]);
        }
        lemma_transfer_map_absent(prefix, signal);
    }
}

impl TaskChain {
    /// A chain with no task, no next stage and no signal transfer.
    pub fn new() -> (r: Self)
        ensures
            r@.tasks == Seq::<TaskKind>::empty(),
            r@.next is None,
            r@.transfer == Map::<Signal, Stage>::empty(),
    {
        TaskChain { task_vec: Vec::new(), next_chain: None, signal_transfer: Vec::new() }
    }

    /// Appends a task to the chain.
    pub fn set_task(self, task: TaskKind) -> (r: Self)
        ensures
            r@.tasks == self@.tasks.push(task),
            r@.next == self@.next,
            r@.transfer == self@.transfer,
    {
        let mut s = self;
        s.task_vec.push(task);
        s
    }

    /// Sets the stage that follows the chain's tasks.
    pub fn set_next(self, next: Stage) -> (r: Self)
        ensures
            r@.tasks == self@.tasks,
            r@.next == Some(next),
            r@.transfer == self@.transfer,
    {
        let mut s = self;
        s.next_chain = Some(next);
        s
    }

    /// Makes `signal` lead to `next`, replacing what it led to before.
    pub fn set_transfer(self, signal: Signal, next: Stage) -> (r: Self)
        ensures
            r@.tasks == self@.tasks,
            r@.next == self@.next,
            r@.transfer == self@.transfer.insert(signal, next),
    {
        let mut s = self;
        let ghost old_entries = s.signal_transfer@;
        s.signal_transfer.push((signal, next));
        proof {
            assert(s.signal_transfer@.drop_last() =~= old_entries);
        }
        s
    }

    /// The chain's tasks, in the order in which they run.
    pub fn iter(&self) -> (r: &[TaskKind])
        ensures
            r@ == self@.tasks,
    {
        self.task_vec.as_slice()
    }

    /// The stage that follows the chain's tasks, if any.
    pub fn next_stage(&self) -> (r: &Option<Stage>)
        ensures
            *r == self@.next,
    {
        &self.next_chain
    }

    /// The stage that `signal` leads to from this chain, if any.
    pub fn transfer_stage(&self, signal: Signal) -> (r: Option<Stage>)
        ensures
            r == (if self@.transfer.contains_key(signal) {
                Some(self@.transfer[signal])
            } else {
                None
            }),
    {
        let n = self.signal_transfer.len();
        let mut i = n;
        while i > 0
            invariant
                i <= n,
                n == self.signal_transfer@.len(),
                forall|j: int| i <= j < n ==> self.signal_transfer@[j].0 != signal,
            decreases i,
        {
            i -= 1;
            let entry = self.signal_transfer[i];
            if entry.0 == signal {
                proof {
                    lemma_transfer_map_last_entry(self.signal_transfer@, i as int);
                }
                return Some(entry.1);
            }
        }
        proof {
            lemma_transfer_map_absent(self.signal_transfer@, signal);
        }
        None
    }
}

/// The chain of tasks of each stage, as the daemon runs them.
pub open spec fn chain_spec(stage: Stage) -> TaskChainView {
    match stage {
        Stage::Init => TaskChainView {
            tasks: seq![TaskKind::Stop, TaskKind::GetTopo, TaskKind::DeployTrafficMonitor],
            next: Some(Stage::Deploy),
            transfer: map![Signal::Stop => Stage::Stop],
        },
        Stage::Deploy => TaskChainView {
            tasks: seq![TaskKind::FetchFlows, TaskKind::CalcScheduling, TaskKind::DeployScheduling],
            next: Some(Stage::Run),
            transfer: map![Signal::Rest => Stage::Rest, Signal::Stop => Stage::Stop],
        },
        Stage::Run => TaskChainView {
            tasks: Seq::empty(),
            next: None,
            transfer: map![
                Signal::Redeploy => Stage::Deploy,
                Signal::Rest => Stage::Rest,
                Signal::Stop => Stage::Stop
            ],
        },
        Stage::Rest => TaskChainView {
            tasks: seq![TaskKind::StopInstances],
            next: None,
            transfer: map![Signal::Redeploy => Stage::Deploy, Signal::Stop => Stage::Stop],
        },
        Stage::Stop => TaskChainView {
            tasks: seq![TaskKind::Stop],
            next: None,
            transfer: map![Signal::Start => Stage::Init],
        },
    }
}

/// The task chain of every stage.
pub struct TaskMap {
    init: TaskChain,
    deploy: TaskChain,
    run: TaskChain,
    rest: TaskChain,
    stop: TaskChain,
}

impl TaskMap {
    /// The chain of `stage` in this map.
    pub closed spec fn chain(&self, stage: Stage) -> TaskChainView {
        match stage {
            Stage::Init => self.init@,
            Stage::Deploy => self.deploy@,
            Stage::Run => self.run@,
            Stage::Rest => self.rest@,
            Stage::Stop => self.stop@,
        }
    }

    /// Whether every stage has the chain that the daemon runs.
    pub open spec fn is_standard(&self) -> bool {
        forall|stage: Stage| #[trigger] self.chain(stage) == chain_spec(stage)
    }

    /// The chain of `stage`.
    pub fn get(&self, stage: Stage) -> (r: &TaskChain)
        ensures
            r@ == self.chain(stage),
    {
        match stage {
            Stage::Init => &self.init,
            Stage::Deploy => &self.deploy,
            Stage::Run => &self.run,
            Stage::Rest => &self.rest,
            Stage::Stop => &self.stop,
        }
    }
}

/// Builds the task chain of every stage.
pub fn task_map() -> (r: TaskMap)
    ensures
        r.is_standard(),
{
    let init = TaskChain::new()
        .set_task(TaskKind::Stop)
        .set_task(TaskKind::GetTopo)
        .set_task(TaskKind::DeployTrafficMonitor)
        .set_next(Stage::Deploy)
        .set_transfer(Signal::Stop, Stage::Stop);
    let deploy = TaskChain::new()
        .set_task(TaskKind::FetchFlows)
        .set_task(TaskKind::CalcScheduling)
        .set_task(TaskKind::DeployScheduling)
        .set_next(Stage::Run)
        .set_transfer(Signal::Rest, Stage::Rest)
        .set_transfer(Signal::Stop, Stage::Stop);
    let run = TaskChain::new()
        .set_transfer(Signal::Redeploy, Stage::Deploy)
        .set_transfer(Signal::Rest, Stage::Rest)
        .set_transfer(Signal::Stop, Stage::Stop);
    let rest = TaskChain::new()
        .set_task(TaskKind::StopInstances)
        .set_transfer(Signal::Redeploy, Stage::Deploy)
        .set_transfer(Signal::Stop, Stage::Stop);
    let stop = TaskChain::new().set_task(TaskKind::Stop).set_transfer(Signal::Start, Stage::Init);
    let r = TaskMap { init, deploy, run, rest, stop };
    proof {
        assert(r.chain(Stage::Init).tasks =~= chain_spec(Stage::Init).tasks);
        assert(r.chain(Stage::Init).transfer =~= chain_spec(Stage::Init).transfer);
        assert(r.chain(Stage::Deploy).tasks =~= chain_spec(Stage::Deploy).tasks);
        assert(r.chain(Stage::Deploy).transfer =~= chain_spec(Stage::Deploy).transfer);
        assert(r.chain(Stage::Run).tasks =~= chain_spec(Stage::Run).tasks);
        assert(r.chain(Stage::Run).transfer =~= chain_spec(Stage::Run).transfer);
        assert(r.chain(Stage::Rest).tasks =~= chain_spec(Stage::Rest).tasks);
        assert(r.chain(Stage::Rest).transfer =~= chain_spec(Stage::Rest).transfer);
        assert(r.chain(Stage::Stop).tasks =~= chain_spec(Stage::Stop).tasks);
        assert(r.chain(Stage::Stop).transfer =~= chain_spec(Stage::Stop).transfer);
        assert forall|stage: Stage| #[trigger] r.chain(stage) == chain_spec(stage) by {
            match stage {
                Stage::Init => {},
                Stage::Deploy => {},
                Stage::Run => {},
                Stage::Rest => {},
                Stage::Stop => {},
            }
        }
    }
    r
}

} // verus!
