use acbot_edge::daemon::machine::{Daemon, SignalOutcome, Step, TaskOutcome, Wait, MAX_FAIL_TIME};
use acbot_edge::daemon::stage::{get_stage, parse_signal, set_stage, stage_name, Signal, Stage};
use acbot_edge::daemon::task_chain::{task_map, TaskChain, TaskKind};

#[test]
fn stage_can_be_set_and_read() {
    let mut current = Stage::Init;
    set_stage(&mut current, Stage::Run);
    assert_eq!(get_stage(&current), Stage::Run);
}

#[test]
fn stage_names_match_debug_output() {
    for stage in [Stage::Init, Stage::Deploy, Stage::Run, Stage::Rest, Stage::Stop] {
        assert_eq!(stage_name(stage), format!("{:?}", stage));
    }
}

#[test]
fn signals_are_parsed_from_request_types() {
    assert_eq!(parse_signal(Some("stop")), Some(Signal::Stop));
    assert_eq!(parse_signal(Some("start")), Some(Signal::Start));
    assert_eq!(parse_signal(Some("redeploy")), Some(Signal::Redeploy));
    assert_eq!(parse_signal(Some("rest")), Some(Signal::Rest));
    assert_eq!(parse_signal(Some("quit")), None);
    assert_eq!(parse_signal(Some("Stop")), None);
    assert_eq!(parse_signal(None), None);
}

#[test]
fn chains_hold_their_tasks_in_order() {
    let map = task_map();
    assert_eq!(
        map.get(Stage::Init).iter(),
        &[TaskKind::Stop, TaskKind::GetTopo, TaskKind::DeployTrafficMonitor][..]
    );
    assert_eq!(
        map.get(Stage::Deploy).iter(),
        &[TaskKind::FetchFlows, TaskKind::CalcScheduling, TaskKind::DeployScheduling][..]
    );
    assert!(map.get(Stage::Run).iter().is_empty());
    assert_eq!(map.get(Stage::Rest).iter(), &[TaskKind::StopInstances][..]);
    assert_eq!(map.get(Stage::Stop).iter(), &[TaskKind::Stop][..]);
    assert_eq!(*map.get(Stage::Init).next_stage(), Some(Stage::Deploy));
    assert_eq!(*map.get(Stage::Deploy).next_stage(), Some(Stage::Run));
    assert_eq!(*map.get(Stage::Run).next_stage(), None);
}

#[test]
fn chains_transfer_signals() {
    let map = task_map();
    assert_eq!(map.get(Stage::Init).transfer_stage(Signal::Stop), Some(Stage::Stop));
    assert_eq!(map.get(Stage::Init).transfer_stage(Signal::Redeploy), None);
    assert_eq!(map.get(Stage::Deploy).transfer_stage(Signal::Rest), Some(Stage::Rest));
    assert_eq!(map.get(Stage::Run).transfer_stage(Signal::Redeploy), Some(Stage::Deploy));
    assert_eq!(map.get(Stage::Rest).transfer_stage(Signal::Redeploy), Some(Stage::Deploy));
    assert_eq!(map.get(Stage::Stop).transfer_stage(Signal::Start), Some(Stage::Init));
    assert_eq!(map.get(Stage::Stop).transfer_stage(Signal::Stop), None);
}

#[test]
fn a_later_transfer_replaces_an_earlier_one() {
    let chain = TaskChain::new()
        .set_transfer(Signal::Stop, Stage::Rest)
        .set_transfer(Signal::Start, Stage::Init)
        .set_transfer(Signal::Stop, Stage::Stop);
    assert_eq!(chain.transfer_stage(Signal::Stop), Some(Stage::Stop));
    assert_eq!(chain.transfer_stage(Signal::Start), Some(Stage::Init));
    assert_eq!(chain.transfer_stage(Signal::Rest), None);
}

#[test]
fn set_task_appends_and_set_next_sets() {
    let chain = TaskChain::new().set_task(TaskKind::FetchFlows).set_task(TaskKind::Stop).set_next(Stage::Rest);
    assert_eq!(chain.iter(), &[TaskKind::FetchFlows, TaskKind::Stop][..]);
    assert_eq!(*chain.next_stage(), Some(Stage::Rest));
}

#[test]
fn daemon_runs_the_init_chain_then_moves_to_deploy() {
    let mut d = Daemon::new();
    assert_eq!(d.stage(), Stage::Init);
    assert_eq!(d.wait_mode(), Wait::Timeout(3));
    assert_eq!(d.next_step(), Step::Run(TaskKind::Stop));
    assert_eq!(d.report(TaskKind::Stop, true), TaskOutcome::Done);
    assert_eq!(d.next_step(), Step::Run(TaskKind::GetTopo));
    assert_eq!(d.report(TaskKind::GetTopo, true), TaskOutcome::Done);
    assert_eq!(d.next_step(), Step::Run(TaskKind::DeployTrafficMonitor));
    assert_eq!(d.report(TaskKind::DeployTrafficMonitor, true), TaskOutcome::Done);
    assert_eq!(d.next_step(), Step::Advanced(Stage::Deploy));
    assert_eq!(d.stage(), Stage::Deploy);
    assert_eq!(d.next_step(), Step::Run(TaskKind::FetchFlows));
}

#[test]
fn daemon_waits_without_limit_once_the_run_stage_is_reached() {
    let mut d = Daemon::new();
    for _ in 0..3 {
        if let Step::Run(t) = d.next_step() {
            d.report(t, true);
        }
    }
    assert_eq!(d.next_step(), Step::Advanced(Stage::Deploy));
    for _ in 0..3 {
        if let Step::Run(t) = d.next_step() {
            d.report(t, true);
        }
    }
    assert_eq!(d.next_step(), Step::Advanced(Stage::Run));
    assert_eq!(d.next_step(), Step::Exhausted);
    assert_eq!(d.wait_mode(), Wait::Block);
    assert_eq!(d.on_signal(Signal::Redeploy), SignalOutcome::Switched(Stage::Deploy));
    assert_eq!(d.wait_mode(), Wait::Timeout(3));
    assert_eq!(d.next_step(), Step::Run(TaskKind::FetchFlows));
}

#[test]
fn a_failed_task_is_retried_and_the_next_one_is_passed_over() {
    let mut d = Daemon::new();
    assert_eq!(d.next_step(), Step::Run(TaskKind::Stop));
    assert_eq!(d.report(TaskKind::Stop, false), TaskOutcome::Retry(10));
    assert_eq!(d.failed_time(), 1);
    assert_eq!(d.next_step(), Step::Run(TaskKind::Stop));
    assert_eq!(d.report(TaskKind::Stop, false), TaskOutcome::Retry(20));
    assert_eq!(d.next_step(), Step::Run(TaskKind::Stop));
    assert_eq!(d.report(TaskKind::Stop, true), TaskOutcome::Done);
    assert_eq!(d.failed_time(), 0);
    // the chain moved on while the failed task was retried
    assert_eq!(d.next_step(), Step::Advanced(Stage::Deploy));
}

#[test]
fn the_daemon_gives_up_after_too_many_failures() {
    let mut d = Daemon::new();
    let mut outcome = TaskOutcome::Done;
    for k in 1..=MAX_FAIL_TIME + 1 {
        let step = d.next_step();
        assert_eq!(step, Step::Run(TaskKind::Stop));
        outcome = d.report(TaskKind::Stop, false);
        if k <= MAX_FAIL_TIME {
            assert_eq!(outcome, TaskOutcome::Retry(10 * k as u64));
        }
    }
    assert_eq!(outcome, TaskOutcome::GiveUp);
}

#[test]
fn signals_switch_stages_or_stop_the_daemon() {
    let mut d = Daemon::new();
    assert_eq!(d.on_signal(Signal::NoSignal), SignalOutcome::Ignored);
    assert_eq!(d.on_signal(Signal::Redeploy), SignalOutcome::Ignored);
    assert_eq!(d.on_signal(Signal::Quit), SignalOutcome::Abort);
    assert_eq!(d.next_step(), Step::Run(TaskKind::Stop));
    assert_eq!(d.report(TaskKind::Stop, false), TaskOutcome::Retry(10));
    assert_eq!(d.on_signal(Signal::Stop), SignalOutcome::Switched(Stage::Stop));
    assert_eq!(d.stage(), Stage::Stop);
    // the failed task is dropped, its count kept
    assert_eq!(d.failed_time(), 1);
    assert_eq!(d.next_step(), Step::Run(TaskKind::Stop));
    assert_eq!(d.report(TaskKind::Stop, true), TaskOutcome::Done);
    assert_eq!(d.next_step(), Step::Exhausted);
    assert_eq!(d.on_signal(Signal::Start), SignalOutcome::Switched(Stage::Init));
    assert_eq!(d.next_step(), Step::Run(TaskKind::Stop));
}

#[test]
fn a_run_changes_stage_only_as_the_chains_allow() {
    let chains = task_map();
    let mut d = Daemon::new();
    let mut stage = Stage::Init;
    let mut ran_in_stage: Vec<TaskKind> = Vec::new();
    let mut all_ok = true;
    let rounds = [
        (true, Signal::NoSignal),
        (true, Signal::Redeploy),
        (true, Signal::NoSignal),
        (true, Signal::NoSignal),
        (false, Signal::NoSignal),
        (true, Signal::NoSignal),
        (true, Signal::NoSignal),
        (true, Signal::NoSignal),
        (true, Signal::NoSignal),
        (true, Signal::Rest),
        (true, Signal::Redeploy),
        (true, Signal::Stop),
        (true, Signal::Start),
        (true, Signal::NoSignal),
    ];
    let mut stages = vec![Stage::Init];
    for (succeeded, signal) in rounds {
        let chain = chains.get(stage);
        match d.next_step() {
            Step::Run(t) => {
                if all_ok {
                    assert_eq!(t, chain.iter()[ran_in_stage.len()]);
                }
                ran_in_stage.push(t);
                all_ok = all_ok && succeeded;
                assert_ne!(d.report(t, succeeded), TaskOutcome::GiveUp);
            }
            Step::Advanced(s) => {
                assert_eq!(Some(s), *chain.next_stage());
                if all_ok {
                    assert_eq!(ran_in_stage.as_slice(), chain.iter());
                }
                stage = s;
                stages.push(s);
                ran_in_stage.clear();
                all_ok = true;
            }
            Step::Exhausted => {}
        }
        let chain = chains.get(stage);
        match d.on_signal(signal) {
            SignalOutcome::Switched(s) => {
                assert_eq!(Some(s), chain.transfer_stage(signal));
                stage = s;
                stages.push(s);
                ran_in_stage.clear();
                all_ok = true;
            }
            SignalOutcome::Ignored => assert!(signal == Signal::NoSignal || chain.transfer_stage(signal).is_none()),
            SignalOutcome::Abort => panic!("the daemon stopped"),
        }
        assert_eq!(d.stage(), stage);
    }
    assert_eq!(
        stages,
        vec![Stage::Init, Stage::Deploy, Stage::Run, Stage::Rest, Stage::Deploy, Stage::Stop, Stage::Init]
    );
}
