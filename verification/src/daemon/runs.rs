use crate::daemon::machine::{
    initial_view, spec_next_step, spec_on_signal, spec_report, spec_wait_mode, view_wf, DaemonView,
    SignalOutcome, Step, TaskOutcome, Wait, MAX_FAIL_TIME,
};
use crate::daemon::stage::{Signal, Stage};
use crate::daemon::task_chain::{chain_spec, TaskKind};
use vstd::prelude::*;

verus! {

/// What a run of the daemon records.
pub enum DaemonEvent {
    /// A task ran, and succeeded or failed.
    Ran(TaskKind, bool),
    /// The chain was done and the daemon moved on to the stage after it.
    Advanced(Stage),
    /// A signal moved the daemon to a stage.
    Switched(Signal, Stage),
}

/// What the outside world hands the daemon in one round of its loop: whether
/// the task that the round runs, if it runs one, succeeds, and the signal
/// that arrives at the round's end.
pub struct Round {
    pub succeeded: bool,
    pub signal: Signal,
}

/// The first half of a round: the daemon's next step and, where it runs a
/// task, the task's report. The state after it, what it records, and
/// whether the daemon still runs.
pub open spec fn spec_step_half(d: DaemonView, succeeded: bool) -> (DaemonView, Seq<DaemonEvent>, bool) {
    let next = spec_next_step(d);
    match next.1 {
        Step::Run(t) => {
            let rep = spec_report(next.0, t, succeeded);
            (rep.0, seq![DaemonEvent::Ran(t, succeeded)], rep.1 != TaskOutcome::GiveUp)
        },
        Step::Advanced(s) => (next.0, seq![DaemonEvent::Advanced(s)], true),
        Step::Exhausted => (next.0, Seq::empty(), true),
    }
}

/// The second half of a round: the signal. The state after it, what it
/// records, and whether the daemon still runs.
pub open spec fn spec_signal_half(d: DaemonView, signal: Signal) -> (DaemonView, Seq<DaemonEvent>, bool) {
    let on = spec_on_signal(d, signal);
    match on.1 {
        SignalOutcome::Abort => (on.0, Seq::empty(), false),
        SignalOutcome::Ignored => (on.0, Seq::empty(), true),
        SignalOutcome::Switched(s) => (on.0, seq![DaemonEvent::Switched(signal, s)], true),
    }
}

/// One round of the daemon's loop: a step, then a signal.
pub open spec fn spec_round(d: DaemonView, r: Round) -> (DaemonView, Seq<DaemonEvent>, bool) {
    let a = spec_step_half(d, r.succeeded);
    if !a.2 {
        a
    } else {
        let b = spec_signal_half(a.0, r.signal);
        (b.0, a.1 + b.1, b.2)
    }
}

/// A run of the daemon from `d` through `rounds`: the state at its end,
/// everything that it recorded, and whether the daemon still runs. Once the
/// daemon stops, later rounds change nothing.
pub open spec fn spec_run(d: DaemonView, rounds: Seq<Round>) -> (DaemonView, Seq<DaemonEvent>, bool)
    decreases rounds.len(),
{
    if rounds.len() == 0 {
        (d, Seq::empty(), true)
    } else {
        let prev = spec_run(d, rounds.drop_last());
        if !prev.2 {
            prev
        } else {
            let r = spec_round(prev.0, rounds.last());
            (r.0, prev.1 + r.1, r.2)
        }
    }
}

/// The stage that the events `p` lead to from `Init`.
pub open spec fn stage_after(p: Seq<DaemonEvent>) -> Stage
    decreases p.len(),
{
    if p.len() == 0 {
        Stage::Init
    } else {
        match p.last() {
            DaemonEvent::Ran(_, _) => stage_after(p.drop_last()),
            DaemonEvent::Advanced(s) => s,
            DaemonEvent::Switched(_, s) => s,
        }
    }
}

/// The tasks that ran since the last change of stage in `p`, each with
/// whether it succeeded.
pub open spec fn runs_since_change(p: Seq<DaemonEvent>) -> Seq<(TaskKind, bool)>
    decreases p.len(),
{
    if p.len() == 0 {
        Seq::empty()
    } else {
        match p.last() {
            DaemonEvent::Ran(t, ok) => runs_since_change(p.drop_last()).push((t, ok)),
            _ => Seq::empty(),
        }
    }
}

/// Every run succeeded.
pub open spec fn all_succeeded(rs: Seq<(TaskKind, bool)>) -> bool {
    forall|i: int| 0 <= i < rs.len() ==> (#[trigger] rs[i]).1
}

/// The tasks of the runs, in order.
pub open spec fn tasks_of(rs: Seq<(TaskKind, bool)>) -> Seq<TaskKind> {
    rs.map_values(|x: (TaskKind, bool)| x.0)
}

/// Whether event `e` may follow the events `p`, in the stage `p` leads to:
/// - a task that runs while every task of the stage so far succeeded is the
///   next task of the stage's chain, so the first task of a stage is the
///   first of its chain;
/// - the daemon moves on only to the stage that follows the chain, and, where
///   every task of the stage succeeded, only once all the chain's tasks ran,
///   in order;
/// - a signal moves it only to the stage that the chain maps the signal to.
pub open spec fn event_allowed(p: Seq<DaemonEvent>, e: DaemonEvent) -> bool {
    let chain = chain_spec(stage_after(p));
    let rs = runs_since_change(p);
    match e {
        DaemonEvent::Ran(t, _) => all_succeeded(rs) ==> rs.len() < chain.tasks.len() && t
            == chain.tasks[rs.len() as int],
        DaemonEvent::Advanced(s) => chain.next == Some(s) && (all_succeeded(rs) ==> tasks_of(rs)
            == chain.tasks),
        DaemonEvent::Switched(signal, s) => {
            &&& signal != Signal::Quit
            &&& signal != Signal::NoSignal
            &&& chain.transfer.contains_key(signal)
            &&& chain.transfer[signal] == s
        },
    }
}

/// Every event of the log may follow the events before it.
pub open spec fn run_allowed(log: Seq<DaemonEvent>) -> bool {
    forall|k: int| 0 <= k < log.len() ==> event_allowed(log.take(k), #[trigger] log[k])
}

/// What holds of the daemon's state after the events `log`.
spec fn state_matches(d: DaemonView, log: Seq<DaemonEvent>) -> bool {
    let rs = runs_since_change(log);
    &&& view_wf(d)
    &&& d.stage == stage_after(log)
    &&& d.no_more_task ==> d.failed is None && d.pos == chain_spec(d.stage).tasks.len() && chain_spec(
        d.stage,
    ).next is None
    &&& all_succeeded(rs) ==> d.failed is None && tasks_of(rs) == chain_spec(d.stage).tasks.take(
        d.pos as int,
    )
}

/// Appending an allowed event keeps the log allowed.
proof fn lemma_push_allowed(log: Seq<DaemonEvent>, e: DaemonEvent)
    requires
        run_allowed(log),
        event_allowed(log, e),
    ensures
        run_allowed(log.push(e)),
        log + seq![e] == log.push(e),
        log.push(e).drop_last() == log,
        log.push(e).last() == e,
{
    let l2 = log.push(e);
    assert(log + seq![e] =~= l2);
    assert(l2.drop_last() =~= log);
    assert forall|k: int| 0 <= k < l2.len() implies event_allowed(l2.take(k), #[trigger] l2[k]) by {
        if k < log.len() {
            assert(l2.take(k) =~= log.take(k));
        } else {
            assert(l2.take(k) =~= log);
        }
    }
}

/// The first half of a round keeps the log allowed and the state matching it.
proof fn lemma_step_half(d: DaemonView, log: Seq<DaemonEvent>, succeeded: bool)
    requires
        run_allowed(log),
        state_matches(d, log),
    ensures
        run_allowed(log + spec_step_half(d, succeeded).1),
        spec_step_half(d, succeeded).2 ==> state_matches(
            spec_step_half(d, succeeded).0,
            log + spec_step_half(d, succeeded).1,
        ),
{
    let chain = chain_spec(d.stage);
    let rs = runs_since_change(log);
    let next = spec_next_step(d);
    match next.1 {
        Step::Run(t) => {
            let e = DaemonEvent::Ran(t, succeeded);
            if all_succeeded(rs) {
                assert(rs.len() == tasks_of(rs).len());
                assert(d.pos < chain.tasks.len());
                assert(t == chain.tasks[d.pos as int]);
            }
            lemma_push_allowed(log, e);
            let l2 = log.push(e);
            let rep = spec_report(next.0, t, succeeded);
            let rs2 = runs_since_change(l2);
            assert(rs2 == rs.push((t, succeeded)));
            if rep.1 != TaskOutcome::GiveUp {
                if all_succeeded(rs2) {
                    assert(rs2[rs.len() as int].1);
                    assert(succeeded);
                    assert(all_succeeded(rs)) by {
                        assert forall|i: int| 0 <= i < rs.len() implies (#[trigger] rs[i]).1 by {
                            assert(rs2[i] == rs[i]);
                        }
                    }
                    assert(tasks_of(rs2) =~= tasks_of(rs).push(t));
                    assert(chain.tasks.take((d.pos + 1) as int) =~= chain.tasks.take(d.pos as int).push(
                        chain.tasks[d.pos as int],
                    ));
                }
                assert(rep.0.failed_time <= MAX_FAIL_TIME);
            }
        },
        Step::Advanced(s) => {
            let e = DaemonEvent::Advanced(s);
            assert(d.failed is None);
            assert(d.pos == chain.tasks.len());
            if all_succeeded(rs) {
                assert(chain.tasks.take(d.pos as int) =~= chain.tasks);
            }
            lemma_push_allowed(log, e);
            let l2 = log.push(e);
            assert(runs_since_change(l2) == Seq::<(TaskKind, bool)>::empty());
            assert(tasks_of(Seq::<(TaskKind, bool)>::empty()) =~= chain_spec(s).tasks.take(0));
        },
        Step::Exhausted => {
            assert(log + Seq::<DaemonEvent>::empty() =~= log);
        },
    }
}

/// The second half of a round keeps the log allowed and the state matching
/// it.
proof fn lemma_signal_half(d: DaemonView, log: Seq<DaemonEvent>, signal: Signal)
    requires
        run_allowed(log),
        state_matches(d, log),
    ensures
        run_allowed(log + spec_signal_half(d, signal).1),
        spec_signal_half(d, signal).2 ==> state_matches(
            spec_signal_half(d, signal).0,
            log + spec_signal_half(d, signal).1,
        ),
{
    let on = spec_on_signal(d, signal);
    match on.1 {
        SignalOutcome::Switched(s) => {
            let e = DaemonEvent::Switched(signal, s);
            lemma_push_allowed(log, e);
            let l2 = log.push(e);
            assert(runs_since_change(l2) == Seq::<(TaskKind, bool)>::empty());
            assert(tasks_of(Seq::<(TaskKind, bool)>::empty()) =~= chain_spec(s).tasks.take(0));
        },
        _ => {
            assert(log + Seq::<DaemonEvent>::empty() =~= log);
        },
    }
}

/// Over every run from the daemon's first state, the log is allowed and,
/// while the daemon runs, its state matches the log.
proof fn lemma_run(rounds: Seq<Round>)
    ensures
        run_allowed(spec_run(initial_view(), rounds).1),
        spec_run(initial_view(), rounds).2 ==> state_matches(
            spec_run(initial_view(), rounds).0,
            spec_run(initial_view(), rounds).1,
        ),
    decreases rounds.len(),
{
    if rounds.len() == 0 {
        let log = Seq::<DaemonEvent>::empty();
        assert(tasks_of(runs_since_change(log)) =~= chain_spec(Stage::Init).tasks.take(0));
    } else {
        lemma_run(rounds.drop_last());
        let prev = spec_run(initial_view(), rounds.drop_last());
        if prev.2 {
            let r = rounds.last();
            lemma_step_half(prev.0, prev.1, r.succeeded);
            let a = spec_step_half(prev.0, r.succeeded);
            if a.2 {
                lemma_signal_half(a.0, prev.1 + a.1, r.signal);
                let b = spec_signal_half(a.0, r.signal);
                assert(prev.1 + (a.1 + b.1) =~= (prev.1 + a.1) + b.1);
            }
        }
    }
}

/// Over every run of the daemon from its first state, whatever its tasks
/// report and whatever signals arrive:
/// - the stages it goes through are those that its events lead to from
///   `Init`, and it is in the last of them while it runs;
/// - it moves on only to the stage that follows its chain, and, where every
///   task of the stage succeeded, only after the chain's tasks all ran, in
///   order;
/// - a signal moves it only to the stage that the current chain maps the
///   signal to;
/// - after each change of stage the first task that runs is the first of the
///   new stage's chain, and, while every task of the stage succeeds, each
///   next task is the next of the chain.
pub proof fn law_daemon_runs(rounds: Seq<Round>)
    ensures
        run_allowed(spec_run(initial_view(), rounds).1),
        spec_run(initial_view(), rounds).2 ==> spec_run(initial_view(), rounds).0.stage == stage_after(
            spec_run(initial_view(), rounds).1,
        ),
{
    lemma_run(rounds);
}

/// The daemon moves on to the stage after its chain only once every task of
/// the chain has been taken and no failed task waits to be retried.
pub proof fn law_advance_only_when_chain_done(d: DaemonView)
    requires
        view_wf(d),
    ensures
        spec_next_step(d).1 is Advanced ==> d.pos == chain_spec(d.stage).tasks.len() && d.failed is None,
{
}

/// Over every run of the daemon from its first state, while it runs, it
/// waits for a signal without limit only when its chain is done, no failed
/// task waits to be retried, and no stage follows the chain.
pub proof fn law_blocks_only_when_exhausted(rounds: Seq<Round>)
    ensures
        ({
            let (d, log, running) = spec_run(initial_view(), rounds);
            running && spec_wait_mode(d) == Wait::Block ==> {
                &&& d.failed is None
                &&& d.pos == chain_spec(d.stage).tasks.len()
                &&& chain_spec(d.stage).next is None
            }
        }),
{
    lemma_run(rounds);
}

/// A signal other than `Quit` that the current chain maps to no stage
/// changes nothing.
pub proof fn law_untransferred_signal_changes_nothing(d: DaemonView, signal: Signal)
    requires
        signal != Signal::Quit,
        !chain_spec(d.stage).transfer.contains_key(signal),
    ensures
        spec_on_signal(d, signal) == (d, SignalOutcome::Ignored),
{
}

} // verus!
