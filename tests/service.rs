use sima::config::{ServiceConfig, SimaConfig};
use sima::ipc::IpcCommand;
use sima::service::{
    on_termination_signal, Directive, Launch, PowerAction, ServiceManager, ServiceState,
    ServiceStatus, ShutdownStep, WaitOutcome,
};

fn svc(name: &str, cmdline: &str) -> ServiceConfig {
    ServiceConfig { name: name.to_string(), description: None, cmdline: cmdline.to_string() }
}

fn table(services: Vec<ServiceConfig>) -> ServiceManager {
    ServiceManager::new(SimaConfig::from_services(services).unwrap())
}

/// Starts every service the way the event loop does at boot, handing out
/// the given PIDs in order; `None` stands for a failed spawn.
fn boot(t: &mut ServiceManager, pids: &[Option<i32>]) {
    for i in 0..t.service_count() {
        match t.start_at(i) {
            Launch::Spawn(j, _) => t.record_spawn(j, pids[i]),
            _ => panic!("a fresh service must be spawned"),
        }
    }
}

fn status_of(t: &ServiceManager, name: &str) -> (Option<i32>, bool) {
    let s = t.get_status();
    let i = s.iter().find(|i| i.name == name).unwrap();
    (i.pid, i.running)
}

#[test]
fn default_state_is_stopped() {
    let s = ServiceState::default();
    assert_eq!(s.status, ServiceStatus::Stopped);
    assert_eq!(s.pid, None);
}

#[test]
fn new_table_is_all_stopped() {
    let t = table(vec![svc("a", "sleep 3600"), svc("b", "sleep 3600")]);
    assert_eq!(t.service_count(), 2);
    assert!(t.all_stopped());
    assert_eq!(status_of(&t, "a"), (None, false));
    assert_eq!(status_of(&t, "b"), (None, false));
}

#[test]
fn startup_with_two_services() {
    let mut t = table(vec![svc("a", "sleep 3600"), svc("b", "sleep 3600")]);
    boot(&mut t, &[Some(100), Some(101)]);
    let s = t.get_status();
    assert_eq!(s.len(), 2);
    assert_eq!((s[0].name.as_str(), s[0].pid, s[0].running), ("a", Some(100), true));
    assert_eq!((s[1].name.as_str(), s[1].pid, s[1].running), ("b", Some(101), true));
    assert_ne!(s[0].pid, s[1].pid);
    assert_eq!(t.broadcast_targets(), vec![-100, -101]);
}

#[test]
fn stop_and_auto_detect_exit() {
    let mut t = table(vec![svc("a", "sleep 3600"), svc("b", "sleep 3600")]);
    boot(&mut t, &[Some(100), Some(101)]);
    assert_eq!(t.stop_service("a"), Some(-100));
    // the state only changes once the reaper sees the exit
    assert_eq!(status_of(&t, "a"), (Some(100), true));
    assert!(t.reap_step(WaitOutcome::Exited(100)));
    assert!(t.reap_step(WaitOutcome::Exited(4000)));
    assert!(!t.reap_step(WaitOutcome::StillAlive));
    assert_eq!(status_of(&t, "a"), (None, false));
    assert_eq!(status_of(&t, "b"), (Some(101), true));
    assert_eq!(t.broadcast_targets(), vec![-101]);
}

#[test]
fn restart_recycles_the_pid() {
    let mut t = table(vec![svc("a", "sleep 3600"), svc("b", "sleep 3600")]);
    boot(&mut t, &[Some(100), Some(101)]);
    assert_eq!(t.handle_process_exit(100), Some(0));
    match t.start_service("a") {
        Launch::Spawn(i, cmd) => {
            assert_eq!(i, 0);
            assert_eq!(cmd, "sleep 3600");
            t.record_spawn(i, Some(102));
        }
        _ => panic!("a stopped service must be spawned"),
    }
    assert_eq!(status_of(&t, "a"), (Some(102), true));
}

#[test]
fn spawn_failure_is_non_fatal() {
    let mut t = table(vec![svc("a", "sleep 3600"), svc("c", "/nonexistent/binary")]);
    boot(&mut t, &[Some(100), None]);
    assert_eq!(status_of(&t, "c"), (None, false));
    assert_eq!(status_of(&t, "a"), (Some(100), true));
    assert!(matches!(t.start_service("c"), Launch::Spawn(1, _)));
}

#[test]
fn errored_service_recovers_on_start() {
    let mut t = table(vec![svc("c", "true")]);
    boot(&mut t, &[None]);
    t.record_spawn(0, Some(55));
    assert_eq!(status_of(&t, "c"), (Some(55), true));
    assert!(t.is_tracked(55));
}

#[test]
fn start_while_running_is_a_no_op() {
    let mut t = table(vec![svc("a", "sleep 3600")]);
    boot(&mut t, &[Some(100)]);
    assert!(matches!(t.start_service("a"), Launch::AlreadyRunning));
    assert!(matches!(t.handle_ipc_command(IpcCommand::Start("a".to_string())), Directive::Nothing));
    assert_eq!(status_of(&t, "a"), (Some(100), true));
}

#[test]
fn stop_while_stopped_sends_nothing() {
    let t = table(vec![svc("a", "sleep 3600")]);
    assert_eq!(t.stop_service("a"), None);
    assert!(matches!(t.handle_ipc_command(IpcCommand::Stop("a".to_string())), Directive::Nothing));
}

#[test]
fn unknown_names_decide_nothing() {
    let t = table(vec![svc("a", "sleep 3600")]);
    assert!(matches!(t.start_service("zz"), Launch::Unknown));
    assert_eq!(t.stop_service("zz"), None);
    assert_eq!(t.find("zz"), None);
    assert_eq!(t.find("a"), Some(0));
}

#[test]
fn stop_command_signals_the_group() {
    let mut t = table(vec![svc("a", "sleep 3600")]);
    boot(&mut t, &[Some(4242)]);
    assert!(matches!(t.handle_ipc_command(IpcCommand::Stop("a".to_string())), Directive::Signal(-4242)));
}

#[test]
fn restart_signals_running_and_spawns_stopped() {
    let mut t = table(vec![svc("a", "sleep 3600"), svc("b", "echo hi")]);
    boot(&mut t, &[Some(10), Some(11)]);
    t.handle_process_exit(11);
    assert!(matches!(t.restart_service(&"a".to_string()), Directive::Signal(-10)));
    match t.handle_ipc_command(IpcCommand::Restart("b".to_string())) {
        Directive::Spawn(1, cmd) => assert_eq!(cmd, "echo hi"),
        _ => panic!("a stopped service must be spawned on restart"),
    }
}

#[test]
fn status_command_delivers_snapshot() {
    let mut t = table(vec![svc("a", "sleep 3600"), svc("b", "sleep 3600")]);
    boot(&mut t, &[Some(7), Some(8)]);
    let (tx, mut rx) = tokio::sync::oneshot::channel();
    let snap = match t.handle_ipc_command(IpcCommand::Status(tx)) {
        Directive::Reply(reply, snap) => {
            assert_eq!(snap.len(), 2);
            reply.send(snap).unwrap();
            rx.try_recv().unwrap()
        }
        _ => panic!("a status query must yield its snapshot"),
    };
    assert_eq!(snap.len(), 2);
    assert_eq!((snap[0].name.as_str(), snap[0].pid, snap[0].running), ("a", Some(7), true));
    assert_eq!(status_of(&t, "a"), (Some(7), true));
}

#[test]
fn power_commands_shut_down() {
    let t = table(vec![]);
    assert!(matches!(t.handle_ipc_command(IpcCommand::Poweroff), Directive::Shutdown(PowerAction::PowerOff)));
    assert!(matches!(t.handle_ipc_command(IpcCommand::Reboot), Directive::Shutdown(PowerAction::Reboot)));
    assert!(matches!(t.handle_ipc_command(IpcCommand::SoftReboot), Directive::Shutdown(PowerAction::ExecSelf)));
    assert_eq!(on_termination_signal(), PowerAction::PowerOff);
}

#[test]
fn reaping_with_nothing_dead_changes_nothing() {
    let mut t = table(vec![svc("a", "sleep 3600")]);
    boot(&mut t, &[Some(100)]);
    assert!(!t.reap_step(WaitOutcome::StillAlive));
    assert!(!t.reap_step(WaitOutcome::NoChildren));
    assert!(!t.reap_step(WaitOutcome::Failed));
    assert_eq!(status_of(&t, "a"), (Some(100), true));
    assert!(t.is_tracked(100));
}

#[test]
fn orphan_exit_changes_nothing() {
    let mut t = table(vec![svc("a", "sleep 3600")]);
    boot(&mut t, &[Some(100)]);
    assert_eq!(t.handle_process_exit(999), None);
    assert!(t.reap_step(WaitOutcome::Exited(998)));
    assert_eq!(status_of(&t, "a"), (Some(100), true));
    assert_eq!(t.broadcast_targets(), vec![-100]);
}

#[test]
fn shutdown_broadcast_until_all_stopped() {
    let mut t = table(vec![svc("a", "trap '' TERM; sleep 3600"), svc("b", "trap '' TERM; sleep 3600")]);
    boot(&mut t, &[Some(20), Some(21)]);
    assert_eq!(t.broadcast_targets(), vec![-20, -21]);
    assert!(!t.all_stopped());
    // escalation: the same groups get the kill signal, then the reaper drains
    assert_eq!(t.broadcast_targets(), vec![-20, -21]);
    t.reap_step(WaitOutcome::Exited(21));
    t.reap_step(WaitOutcome::Exited(20));
    assert!(t.all_stopped());
    assert!(t.broadcast_targets().is_empty());
}

#[test]
fn reverse_index_matches_running_services() {
    let mut t = table(vec![svc("a", "x"), svc("b", "y"), svc("c", "z")]);
    boot(&mut t, &[Some(5), None, Some(6)]);
    let running = t.get_status().iter().filter(|i| i.running).count();
    assert_eq!(t.broadcast_targets().len(), running);
    for i in t.get_status() {
        assert_eq!(i.running, i.pid.is_some());
        if let Some(p) = i.pid {
            assert!(t.is_tracked(p));
        }
    }
}

#[test]
fn shutdown_steps_wait_then_escalate() {
    let mut t = table(vec![svc("a", "trap '' TERM; sleep 3600"), svc("b", "trap '' TERM; sleep 3600")]);
    boot(&mut t, &[Some(30), Some(31)]);
    assert!(matches!(t.shutdown_step(false), ShutdownStep::Wait));
    t.reap_step(WaitOutcome::Exited(30));
    match t.shutdown_step(true) {
        ShutdownStep::Escalate(groups) => assert_eq!(groups, vec![-31]),
        _ => panic!("after the deadline the remaining group must be killed"),
    }
    t.reap_step(WaitOutcome::Exited(31));
    assert!(matches!(t.shutdown_step(true), ShutdownStep::Done));
    assert!(matches!(t.shutdown_step(false), ShutdownStep::Done));
}
