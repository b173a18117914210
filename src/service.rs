use crate::config::{cmdlines_of, names_of, unique_names, ServiceConfig, SimaConfig};
use crate::ipc::IpcCommand;
use tokio::sync::oneshot::Sender;
use crate::proto::{ServiceInfo, ServiceInfoView};
use vstd::prelude::*;

verus! {

/// Lifecycle status of a service.
#[derive(Debug, PartialEq, Eq, Structural, Clone, Copy)]
pub enum ServiceStatus {
    Running,
    Stopped,
    Errored,
}

/// Runtime record of a service: its status and the PID of its primary
/// child, which is also the identifier of the child's process group.
#[derive(Debug, PartialEq, Eq, Structural, Clone, Copy)]
pub struct ServiceState {
    pub pid: Option<i32>,
    pub status: ServiceStatus,
}

impl ServiceState {
    /// A running state holds a positive PID; any other state holds none.
    pub open spec fn consistent(self) -> bool {
        &&& (self.status == ServiceStatus::Running) == (self.pid is Some)
        &&& self.pid matches Some(p) ==> p > 0
    }

    pub open spec fn is_running(self) -> bool {
        self.status == ServiceStatus::Running
    }
}

/// The state every service starts in.
pub open spec fn initial_state() -> ServiceState {
    ServiceState { pid: None, status: ServiceStatus::Stopped }
}

impl Default for ServiceState {
    fn default() -> (r: ServiceState)
        ensures
            r == initial_state(),
    {
        ServiceState { pid: None, status: ServiceStatus::Stopped }
    }
}

/// Number of running states in a sequence.
pub open spec fn running_count(states: Seq<ServiceState>) -> nat
    decreases states.len(),
{
    if states.len() == 0 {
        0
    } else {
        running_count(states.drop_last()) + if states.last().is_running() {
            1nat
        } else {
            0nat
        }
    }
}

/// Mathematical value of the service table. Position `i` of `names`,
/// `cmdlines` and `states` describes one service; `reverse` is the reverse
/// index, a list of (pid, position) entries.
pub struct TableView {
    pub names: Seq<Seq<char>>,
    pub cmdlines: Seq<Seq<char>>,
    pub states: Seq<ServiceState>,
    pub reverse: Seq<(i32, int)>,
}

impl TableView {
    /// The reverse index maps `pid` to the service at position `i`.
    pub open spec fn indexes(self, pid: i32, i: int) -> bool {
        exists|k: int| 0 <= k < self.reverse.len() && #[trigger] self.reverse[k] == (pid, i)
    }

    /// Some service is called `name`.
    pub open spec fn has_name(self, name: Seq<char>) -> bool {
        exists|i: int| 0 <= i < self.names.len() && #[trigger] self.names[i] == name
    }

    pub open spec fn inv(self) -> bool {
        &&& self.names.len() == self.states.len()
        &&& self.cmdlines.len() == self.states.len()
        &&& unique_names(self.names)
        &&& forall|i: int| 0 <= i < self.states.len() ==> #[trigger] self.states[i].consistent()
        &&& forall|k: int|
            0 <= k < self.reverse.len() ==> {
                let (p, i) = #[trigger] self.reverse[k];
                &&& 0 <= i < self.states.len()
                &&& self.states[i].pid == Some(p)
            }
        &&& forall|k1: int, k2: int|
            0 <= k1 < self.reverse.len() && 0 <= k2 < self.reverse.len() && k1 != k2
                ==> #[trigger] self.reverse[k1].0 != #[trigger] self.reverse[k2].0
        &&& forall|i: int|
            0 <= i < self.states.len() && #[trigger] self.states[i].is_running() ==> self.indexes(
                self.states[i].pid->0,
                i,
            )
        &&& self.reverse.len() == running_count(self.states)
    }
}

proof fn lemma_count_update(s: Seq<ServiceState>, i: int, x: ServiceState)
    requires
        0 <= i < s.len(),
    ensures
        running_count(s.update(i, x)) + (if s[i].is_running() { 1int } else { 0int })
            == running_count(s) + (if x.is_running() { 1int } else { 0int }),
    decreases s.len(),
{
    if i == s.len() - 1 {
        assert(s.update(i, x).drop_last() =~= s.drop_last());
    } else {
        lemma_count_update(s.drop_last(), i, x);
        assert(s.update(i, x).drop_last() =~= s.drop_last().update(i, x));
    }
}

proof fn lemma_count_none_running(s: Seq<ServiceState>)
    requires
        forall|i: int| 0 <= i < s.len() ==> !(#[trigger] s[i]).is_running(),
    ensures
        running_count(s) == 0,
    decreases s.len(),
{
    if s.len() > 0 {
        lemma_count_none_running(s.drop_last());
    }
}

/// What a status query reports of the service at position `i`.
pub open spec fn info_of(t: TableView, i: int) -> ServiceInfoView {
    ServiceInfoView {
        name: t.names[i],
        pid: t.states[i].pid,
        running: t.states[i].is_running(),
    }
}

/// `post` is `pre` after the exit of `pid` was applied: the reverse-index
/// entry of `pid`, if any, is gone and its service is stopped; without one,
/// nothing changed.
pub open spec fn exited(pre: TableView, post: TableView, pid: i32) -> bool {
    &&& post.names == pre.names
    &&& post.cmdlines == pre.cmdlines
    &&& if exists|k: int| 0 <= k < pre.reverse.len() && #[trigger] pre.reverse[k].0 == pid {
        exists|k: int|
            0 <= k < pre.reverse.len() && #[trigger] pre.reverse[k].0 == pid
                && post.reverse == pre.reverse.remove(k)
                && post.states == pre.states.update(pre.reverse[k].1, initial_state())
    } else {
        post == pre
    }
}

/// Seconds the shutdown coordinator waits for every service to exit before
/// it sends the kill signal.
pub const SHUTDOWN_TIMEOUT_SECS: u64 = 10;

/// The platform action that follows a shutdown pass.
#[derive(Debug, PartialEq, Eq, Structural, Clone, Copy)]
pub enum PowerAction {
    PowerOff,
    Reboot,
    /// Replace the manager's image with a fresh one of the same executable.
    ExecSelf,
}

/// What the event loop must do after the supervisor decided on a command.
pub enum Directive {
    /// Nothing.
    Nothing,
    /// Send the termination signal to this process group.
    Signal(i32),
    /// Spawn this command line for the service at this position, then
    /// record the outcome with `record_spawn`.
    Spawn(usize, String),
    /// Send this snapshot on this reply channel.
    Reply(Sender<Vec<ServiceInfo>>, Vec<ServiceInfo>),
    /// Run the shutdown coordinator, then this action.
    Shutdown(PowerAction),
}

/// `v` lists every service of `t`, in table order, as a status query reports it.
pub open spec fn is_snapshot(t: TableView, v: Seq<ServiceInfo>) -> bool {
    &&& v.len() == t.names.len()
    &&& forall|i: int| 0 <= i < v.len() ==> (#[trigger] v[i])@ == info_of(t, i)
}

/// What the shutdown coordinator does next, once the reaper has drained.
pub enum ShutdownStep {
    /// Wait for the next child-exit notification or the deadline.
    Wait,
    /// The deadline passed: send the kill signal to these process groups,
    /// drain the reaper once more, and stop waiting.
    Escalate(Vec<i32>),
    /// Every service has exited.
    Done,
}

/// The service called `name` exists and runs.
pub open spec fn runs(t: TableView, name: Seq<char>) -> bool {
    exists|i: int| 0 <= i < t.names.len() && t.names[i] == name && #[trigger] t.states[i].is_running()
}

/// `d` is the directive for a `Start` of `name`: a spawn of its command line
/// where it exists and does not run, nothing otherwise.
pub open spec fn start_directive(t: TableView, name: Seq<char>, d: Directive) -> bool {
    match d {
        Directive::Spawn(i, c) => i < t.names.len() && t.names[i as int] == name
            && !t.states[i as int].is_running() && c@ == t.cmdlines[i as int],
        Directive::Nothing => !t.has_name(name) || runs(t, name),
        _ => false,
    }
}

/// `d` is the directive for a `Stop` of `name`: the termination signal to
/// its process group where it runs, nothing otherwise.
pub open spec fn stop_directive(t: TableView, name: Seq<char>, d: Directive) -> bool {
    match d {
        Directive::Signal(g) => exists|i: int|
            0 <= i < t.names.len() && t.names[i] == name && #[trigger] t.states[i].is_running()
                && (t.states[i].pid matches Some(p) && g as int == -(p as int)),
        Directive::Nothing => !runs(t, name),
        _ => false,
    }
}

/// What the supervisor must do for a `Start` request.
pub enum Launch {
    /// No service has that name.
    Unknown,
    /// The service is already running: nothing to do.
    AlreadyRunning,
    /// Spawn this command line for the service at this position, then
    /// record the outcome with `record_spawn`.
    Spawn(usize, String),
}

/// What one step of reaping observed.
pub enum WaitOutcome {
    /// A child with this PID terminated.
    Exited(i32),
    /// Children exist, none has terminated.
    StillAlive,
    /// No children exist.
    NoChildren,
    /// The wait primitive failed otherwise.
    Failed,
}

/// The supervisor's authoritative state.
pub struct ServiceManager {
    configs: Vec<ServiceConfig>,
    states: Vec<ServiceState>,
    pid_map: Vec<(i32, usize)>,
}

impl View for ServiceManager {
    type V = TableView;

    closed spec fn view(&self) -> TableView {
        TableView {
            names: names_of(self.configs@),
            cmdlines: cmdlines_of(self.configs@),
            states: self.states@,
            reverse: self.pid_map@.map_values(|e: (i32, usize)| (e.0, e.1 as int)),
        }
    }
}

impl ServiceManager {
    pub open spec fn wf(&self) -> bool {
        self@.inv()
    }

    /// A table holding every configured service, each stopped.
    pub fn new(config: SimaConfig) -> (r: ServiceManager)
        requires
            config.wf(),
        ensures
            r.wf(),
            r@.names == names_of(config.services@),
            r@.cmdlines == cmdlines_of(config.services@),
            r@.reverse.len() == 0,
            forall|i: int| 0 <= i < r@.states.len() ==> #[trigger] r@.states[i] == initial_state(),
    {
        let configs = config.services;
        let mut states: Vec<ServiceState> = Vec::new();
        let mut i: usize = 0;
        while i < configs.len()
            invariant
                i <= configs@.len(),
                states@.len() == i,
                forall|j: int| 0 <= j < i ==> #[trigger] states@[j] == initial_state(),
            decreases configs@.len() - i,
        {
            states.push(ServiceState::default());
            i = i + 1;
        }
        let r = ServiceManager { configs, states, pid_map: Vec::new() };
        proof {
            lemma_count_none_running(r@.states);
            assert(r@.reverse =~= Seq::<(i32, int)>::empty());
        }
        r
    }

    /// Position of the service called `name`.
    pub fn find(&self, name: &str) -> (r: Option<usize>)
        requires
            self.wf(),
        ensures
            match r {
                Some(i) => i < self@.names.len() && self@.names[i as int] == name@,
                None => !self@.has_name(name@),
            },
    {
        let key: String = name.to_owned();
        let mut i: usize = 0;
        while i < self.configs.len()
            invariant
                i <= self.configs@.len(),
                key@ == name@,
                forall|j: int| 0 <= j < i ==> self@.names[j] != name@,
            decreases self.configs@.len() - i,
        {
            if self.configs[i].name == key {
                return Some(i);
            }
            i = i + 1;
        }
        None
    }

    /// Whether the reverse index holds `pid`.
    pub fn is_tracked(&self, pid: i32) -> (r: bool)
        requires
            self.wf(),
        ensures
            r == exists|k: int| 0 <= k < self@.reverse.len() && #[trigger] self@.reverse[k].0 == pid,
    {
        let mut k: usize = 0;
        while k < self.pid_map.len()
            invariant
                k <= self.pid_map@.len(),
                forall|j: int| 0 <= j < k ==> #[trigger] self@.reverse[j].0 != pid,
            decreases self.pid_map@.len() - k,
        {
            if self.pid_map[k].0 == pid {
                assert(self@.reverse[k as int].0 == pid);
                return true;
            }
            k = k + 1;
        }
        false
    }

    /// Whether the reverse index is empty, that is no service runs.
    pub fn all_stopped(&self) -> (r: bool)
        requires
            self.wf(),
        ensures
            r == (self@.reverse.len() == 0),
    {
        self.pid_map.len() == 0
    }

    /// Decides what a `Start` of `name` requires: nothing where the service
    /// runs, a spawn of its command line where it is stopped or errored.
    pub fn start_service(&self, name: &str) -> (r: Launch)
        requires
            self.wf(),
        ensures
            match r {
                Launch::Unknown => !self@.has_name(name@),
                Launch::AlreadyRunning => exists|i: int|
                    0 <= i < self@.names.len() && self@.names[i] == name@
                        && #[trigger] self@.states[i].is_running(),
                Launch::Spawn(i, cmd) => i < self@.names.len() && self@.names[i as int] == name@
                    && !self@.states[i as int].is_running() && cmd@ == self@.cmdlines[i as int],
            },
            (exists|i: int|
                0 <= i < self@.names.len() && self@.names[i] == name@
                    && #[trigger] self@.states[i].is_running()) ==> r is AlreadyRunning,
    {
        match self.find(name) {
            None => Launch::Unknown,
            Some(i) => {
                if self.states[i].status == ServiceStatus::Running {
                    assert(self@.states[i as int].is_running());
                    Launch::AlreadyRunning
                } else {
                    let cmd = self.configs[i].cmdline.clone();
                    Launch::Spawn(i, cmd)
                }
            }
        }
    }

    /// Records the outcome of a spawn for the service at `index`: on success
    /// the service runs under the new PID and the reverse index gains it; on
    /// failure the service is errored.
    pub fn record_spawn(&mut self, index: usize, outcome: Option<i32>)
        requires
            old(self).wf(),
            index < old(self)@.states.len(),
            !old(self)@.states[index as int].is_running(),
            outcome matches Some(p) ==> p > 0 && forall|k: int|
                0 <= k < old(self)@.reverse.len() ==> #[trigger] old(self)@.reverse[k].0 != p,
        ensures
            final(self).wf(),
            final(self)@.names == old(self)@.names,
            final(self)@.cmdlines == old(self)@.cmdlines,
            running_count(final(self)@.states) == running_count(old(self)@.states) + (if outcome is Some {
                1nat
            } else {
                0nat
            }),
            final(self)@.reverse.len() == running_count(final(self)@.states),
            match outcome {
                Some(p) => {
                    &&& final(self)@.states == old(self)@.states.update(
                        index as int,
                        ServiceState { pid: Some(p), status: ServiceStatus::Running },
                    )
                    &&& final(self)@.reverse == old(self)@.reverse.push((p, index as int))
                },
                None => {
                    &&& final(self)@.states == old(self)@.states.update(
                        index as int,
                        ServiceState { pid: None, status: ServiceStatus::Errored },
                    )
                    &&& final(self)@.reverse == old(self)@.reverse
                },
            },
    {
        let ghost pre = self@;
        match outcome {
            Some(p) => {
                self.states.set(index, ServiceState { pid: Some(p), status: ServiceStatus::Running });
                self.pid_map.push((p, index));
                proof {
                    let post = self@;
                    assert(post.reverse =~= pre.reverse.push((p, index as int)));
                    lemma_count_update(pre.states, index as int, post.states[index as int]);
                    assert forall|i: int|
                        0 <= i < post.states.len() && #[trigger] post.states[i].is_running()
                        implies post.indexes(post.states[i].pid->0, i) by {
                        if i == index {
                            assert(post.reverse[pre.reverse.len() as int] == (p, i));
                        } else {
                            assert(pre.indexes(pre.states[i].pid->0, i));
                            let k = choose|k: int| 0 <= k < pre.reverse.len() && #[trigger] pre.reverse[k] == (pre.states[i].pid->0, i);
                            assert(post.reverse[k] == pre.reverse[k]);
                        }
                    }
                    assert forall|k: int| 0 <= k < post.reverse.len() implies {
                        let (q, i) = #[trigger] post.reverse[k];
                        &&& 0 <= i < post.states.len()
                        &&& post.states[i].pid == Some(q)
                    } by {
                        if k < pre.reverse.len() {
                            assert(post.reverse[k] == pre.reverse[k]);
                            let (q, i) = pre.reverse[k];
                            assert(pre.states[i].consistent());
                            assert(pre.states[index as int].consistent());
                            assert(i != index);
                        }
                    }
                }
            },
            None => {
                self.states.set(index, ServiceState { pid: None, status: ServiceStatus::Errored });
                proof {
                    let post = self@;
                    lemma_count_update(pre.states, index as int, post.states[index as int]);
                    assert forall|k: int| 0 <= k < post.reverse.len() implies {
                        let (q, i) = #[trigger] post.reverse[k];
                        &&& 0 <= i < post.states.len()
                        &&& post.states[i].pid == Some(q)
                    } by {
                        let (q, i) = pre.reverse[k];
                        assert(pre.states[i].consistent());
                        assert(pre.states[index as int].consistent());
                        assert(i != index);
                    }
                }
            },
        }
    }

    /// Number of configured services.
    pub fn service_count(&self) -> (r: usize)
        requires
            self.wf(),
        ensures
            r == self@.names.len(),
    {
        self.configs.len()
    }

    /// Decides what starting the service at position `i` requires.
    pub fn start_at(&self, i: usize) -> (r: Launch)
        requires
            self.wf(),
            i < self@.names.len(),
        ensures
            self@.states[i as int].is_running() ==> r is AlreadyRunning,
            !self@.states[i as int].is_running() ==> (r matches Launch::Spawn(j, cmd) && j == i
                && cmd@ == self@.cmdlines[i as int]),
    {
        if self.states[i].status == ServiceStatus::Running {
            Launch::AlreadyRunning
        } else {
            Launch::Spawn(i, self.configs[i].cmdline.clone())
        }
    }

    /// Decides on a command from the control server: what the event loop
    /// must do. A status query yields the snapshot to send on its channel. A restart signals a running service, which a
    /// later `Start` brings back once the reaper has seen it exit, and
    /// starts one that does not run.
    pub fn handle_ipc_command(&self, cmd: IpcCommand) -> (r: Directive)
        requires
            self.wf(),
        ensures
            match cmd {
                IpcCommand::Start(n) => start_directive(self@, n@, r),
                IpcCommand::Stop(n) => stop_directive(self@, n@, r),
                IpcCommand::Restart(n) => if runs(self@, n@) {
                    stop_directive(self@, n@, r)
                } else {
                    start_directive(self@, n@, r)
                },
                IpcCommand::Status(tx) => r matches Directive::Reply(rtx, v) && rtx == tx
                    && is_snapshot(self@, v@),
                IpcCommand::Poweroff => r == Directive::Shutdown(PowerAction::PowerOff),
                IpcCommand::Reboot => r == Directive::Shutdown(PowerAction::Reboot),
                IpcCommand::SoftReboot => r == Directive::Shutdown(PowerAction::ExecSelf),
            },
    {
        match cmd {
            IpcCommand::Start(n) => self.start_directive(&n),
            IpcCommand::Stop(n) => self.stop_directive(&n),
            IpcCommand::Restart(n) => self.restart_service(&n),
            IpcCommand::Status(tx) => Directive::Reply(tx, self.get_status()),
            IpcCommand::Poweroff => Directive::Shutdown(PowerAction::PowerOff),
            IpcCommand::Reboot => Directive::Shutdown(PowerAction::Reboot),
            IpcCommand::SoftReboot => Directive::Shutdown(PowerAction::ExecSelf),
        }
    }

    fn start_directive(&self, name: &String) -> (r: Directive)
        requires
            self.wf(),
        ensures
            start_directive(self@, name@, r),
    {
        match self.start_service(name.as_str()) {
            Launch::Spawn(i, c) => Directive::Spawn(i, c),
            _ => Directive::Nothing,
        }
    }

    fn stop_directive(&self, name: &String) -> (r: Directive)
        requires
            self.wf(),
        ensures
            stop_directive(self@, name@, r),
    {
        match self.stop_service(name.as_str()) {
            Some(g) => Directive::Signal(g),
            None => Directive::Nothing,
        }
    }

    /// Decides what a `Restart` of `name` requires: the stop of a running
    /// service, the start of any other.
    pub fn restart_service(&self, name: &String) -> (r: Directive)
        requires
            self.wf(),
        ensures
            if runs(self@, name@) {
                stop_directive(self@, name@, r)
            } else {
                start_directive(self@, name@, r)
            },
    {
        let d = self.stop_directive(name);
        match d {
            Directive::Nothing => self.start_directive(name),
            _ => d,
        }
    }

    /// Decides what a `Stop` of `name` requires: the process group to send
    /// the termination signal to (the negated PID) where the service runs,
    /// and nothing otherwise. The state is left to the reaper.
    pub fn stop_service(&self, name: &str) -> (r: Option<i32>)
        requires
            self.wf(),
        ensures
            match r {
                Some(g) => exists|i: int|
                    0 <= i < self@.names.len() && self@.names[i] == name@
                        && #[trigger] self@.states[i].is_running() && (self@.states[i].pid matches Some(
                        p,
                    ) && g as int == -(p as int)),
                None => forall|i: int|
                    0 <= i < self@.names.len() && self@.names[i] == name@
                        ==> !(#[trigger] self@.states[i].is_running()),
            },
    {
        match self.find(name) {
            None => None,
            Some(i) => {
                proof {
                    assert(self@.states[i as int].consistent());
                    assert forall|j: int| 0 <= j < self@.names.len() && self@.names[j] == name@
                        implies j == i by {}
                }
                match self.states[i].pid {
                    Some(p) => {
                        assert(self@.states[i as int].is_running());
                        Some(-p)
                    },
                    None => None,
                }
            },
        }
    }

    /// Snapshot of every service, in table order.
    pub fn get_status(&self) -> (r: Vec<ServiceInfo>)
        requires
            self.wf(),
        ensures
            r@.len() == self@.names.len(),
            forall|i: int| 0 <= i < r@.len() ==> (#[trigger] r@[i])@ == info_of(self@, i),
    {
        let mut out: Vec<ServiceInfo> = Vec::new();
        let mut i: usize = 0;
        while i < self.configs.len()
            invariant
                i <= self.configs@.len(),
                self.configs@.len() == self.states@.len(),
                out@.len() == i,
                forall|j: int| 0 <= j < i ==> (#[trigger] out@[j])@ == info_of(self@, j),
            decreases self.configs@.len() - i,
        {
            let st = self.states[i];
            out.push(ServiceInfo {
                name: self.configs[i].name.clone(),
                pid: st.pid,
                running: st.status == ServiceStatus::Running,
            });
            i = i + 1;
        }
        out
    }

    /// The process groups of every entry of the reverse index, in its order:
    /// the targets of a broadcast signal.
    pub fn broadcast_targets(&self) -> (r: Vec<i32>)
        requires
            self.wf(),
        ensures
            r@.len() == self@.reverse.len(),
            forall|k: int| 0 <= k < r@.len() ==> #[trigger] r@[k] == -self@.reverse[k].0,
    {
        let mut out: Vec<i32> = Vec::new();
        let mut k: usize = 0;
        while k < self.pid_map.len()
            invariant
                self.wf(),
                k <= self.pid_map@.len(),
                out@.len() == k,
                forall|j: int| 0 <= j < k ==> #[trigger] out@[j] == -self@.reverse[j].0,
            decreases self.pid_map@.len() - k,
        {
            let p = self.pid_map[k].0;
            proof {
                let (q, i) = self@.reverse[k as int];
                assert(self@.states[i].consistent());
            }
            out.push(-p);
            k = k + 1;
        }
        out
    }

    /// One step of the shutdown coordinator, after the termination signal
    /// went to every group of `broadcast_targets`: done once the reverse
    /// index is empty; otherwise wait until the deadline, and escalate to the
    /// groups still tracked after it.
    pub fn shutdown_step(&self, deadline_passed: bool) -> (r: ShutdownStep)
        requires
            self.wf(),
        ensures
            self@.reverse.len() == 0 ==> r is Done,
            self@.reverse.len() > 0 && !deadline_passed ==> r is Wait,
            self@.reverse.len() > 0 && deadline_passed ==> (r matches ShutdownStep::Escalate(g)
                && g@.len() == self@.reverse.len() && forall|k: int|
                0 <= k < g@.len() ==> #[trigger] g@[k] == -self@.reverse[k].0),
    {
        if self.all_stopped() {
            ShutdownStep::Done
        } else if !deadline_passed {
            ShutdownStep::Wait
        } else {
            ShutdownStep::Escalate(self.broadcast_targets())
        }
    }

    /// Applies the exit of `pid`: where the reverse index holds it, the entry
    /// leaves the index and its service is stopped, and its position is
    /// returned; an orphan's exit changes nothing.
    pub fn handle_process_exit(&mut self, pid: i32) -> (r: Option<usize>)
        requires
            old(self).wf(),
        ensures
            final(self).wf(),
            final(self)@.names == old(self)@.names,
            final(self)@.cmdlines == old(self)@.cmdlines,
            match r {
                Some(i) => exists|k: int|
                    0 <= k < old(self)@.reverse.len() && #[trigger] old(self)@.reverse[k] == (
                        pid,
                        i as int,
                    ) && final(self)@.reverse == old(self)@.reverse.remove(k)
                        && final(self)@.states == old(self)@.states.update(i as int, initial_state()),
                None => (forall|k: int|
                    0 <= k < old(self)@.reverse.len() ==> #[trigger] old(self)@.reverse[k].0 != pid)
                    && final(self)@ == old(self)@,
            },
    {
        let ghost pre = self@;
        let mut k: usize = 0;
        while k < self.pid_map.len()
            invariant
                self@ == pre,
                pre == old(self)@,
                pre.inv(),
                k <= self.pid_map@.len(),
                forall|j: int| 0 <= j < k ==> #[trigger] pre.reverse[j].0 != pid,
            decreases self.pid_map@.len() - k,
        {
            if self.pid_map[k].0 == pid {
                proof {
                    let (q, j) = pre.reverse[k as int];
                    assert(0 <= j < pre.states.len());
                }
                let (_, i) = self.pid_map.remove(k);
                self.states.set(i, ServiceState { pid: None, status: ServiceStatus::Stopped });
                proof {
                    let post = self@;
                    assert(pre.reverse[k as int] == (pid, i as int));
                    assert(post.reverse =~= pre.reverse.remove(k as int));
                    assert(pre.states[i as int].consistent());
                    lemma_count_update(pre.states, i as int, initial_state());
                    assert forall|k2: int| 0 <= k2 < post.reverse.len() implies {
                        let (q, i2) = #[trigger] post.reverse[k2];
                        &&& 0 <= i2 < post.states.len()
                        &&& post.states[i2].pid == Some(q)
                    } by {
                        let kk = if k2 < k { k2 } else { k2 + 1 };
                        assert(post.reverse[k2] == pre.reverse[kk]);
                        assert(pre.reverse[kk].0 != pre.reverse[k as int].0);
                    }
                    assert forall|k1: int, k2: int|
                        0 <= k1 < post.reverse.len() && 0 <= k2 < post.reverse.len() && k1 != k2
                        implies #[trigger] post.reverse[k1].0 != #[trigger] post.reverse[k2].0 by {
                        let kk1 = if k1 < k { k1 } else { k1 + 1 };
                        let kk2 = if k2 < k { k2 } else { k2 + 1 };
                        assert(post.reverse[k1] == pre.reverse[kk1]);
                        assert(post.reverse[k2] == pre.reverse[kk2]);
                    }
                    assert forall|i2: int|
                        0 <= i2 < post.states.len() && #[trigger] post.states[i2].is_running()
                        implies post.indexes(post.states[i2].pid->0, i2) by {
                        assert(i2 != i);
                        assert(pre.states[i2].is_running());
                        let kk = choose|kk: int| 0 <= kk < pre.reverse.len() && #[trigger] pre.reverse[kk] == (pre.states[i2].pid->0, i2);
                        assert(kk != k);
                        if kk < k {
                            assert(post.reverse[kk] == pre.reverse[kk]);
                        } else {
                            assert(post.reverse[kk - 1] == pre.reverse[kk]);
                        }
                    }
                }
                return Some(i);
            }
            k = k + 1;
        }
        None
    }

    /// One step of the reaper: applies an exit, and says whether the reaper
    /// must wait again. Nothing changes where no child terminated.
    pub fn reap_step(&mut self, outcome: WaitOutcome) -> (more: bool)
        requires
            old(self).wf(),
        ensures
            final(self).wf(),
            more == (outcome is Exited),
            match outcome {
                WaitOutcome::Exited(pid) => exited(old(self)@, final(self)@, pid),
                _ => final(self)@ == old(self)@,
            },
    {
        match outcome {
            WaitOutcome::Exited(pid) => {
                let _ = self.handle_process_exit(pid);
                true
            },
            _ => false,
        }
    }

}


/// Between events, a service runs exactly when it holds a PID, and then the
/// reverse index maps that PID, and no other, to it.
pub proof fn lemma_running_iff_indexed(t: &ServiceManager, i: int)
    requires
        t.wf(),
        0 <= i < t@.states.len(),
    ensures
        t@.states[i].is_running() <==> t@.states[i].pid is Some,
        t@.states[i].pid matches Some(p) ==> t@.indexes(p, i),
        forall|p: i32| #[trigger] t@.indexes(p, i) ==> t@.states[i].pid == Some(p),
{
    assert(t@.states[i].consistent());
    assert forall|p: i32| #[trigger] t@.indexes(p, i) implies t@.states[i].pid == Some(p) by {
        let k = choose|k: int| 0 <= k < t@.reverse.len() && #[trigger] t@.reverse[k] == (p, i);
        assert(t@.reverse[k] == (p, i));
    }
}

/// The reverse index has one entry per running service.
pub proof fn lemma_index_size(t: &ServiceManager)
    requires
        t.wf(),
    ensures
        t@.reverse.len() == running_count(t@.states),
{
}

/// No PID appears twice in the reverse index.
pub proof fn lemma_pids_distinct(t: &ServiceManager, k1: int, k2: int)
    requires
        t.wf(),
        0 <= k1 < t@.reverse.len(),
        0 <= k2 < t@.reverse.len(),
        k1 != k2,
    ensures
        t@.reverse[k1].0 != t@.reverse[k2].0,
{
}

/// The exit of a PID that a service does not hold leaves that service's
/// state as it was.
pub proof fn lemma_exit_of_other(pre: TableView, post: TableView, q: i32, i: int)
    requires
        pre.inv(),
        0 <= i < pre.states.len(),
        pre.states[i].pid != Some(q),
        exited(pre, post, q),
    ensures
        post.states.len() == pre.states.len(),
        post.states[i] == pre.states[i],
{
    if exists|k: int| 0 <= k < pre.reverse.len() && #[trigger] pre.reverse[k].0 == q {
        let k = choose|k: int|
            0 <= k < pre.reverse.len() && #[trigger] pre.reverse[k].0 == q
                && post.reverse == pre.reverse.remove(k)
                && post.states == pre.states.update(pre.reverse[k].1, initial_state());
        let (pk, ik) = pre.reverse[k];
        assert(ik != i);
    }
}

/// The exit of the PID that a running service holds stops that service.
pub proof fn lemma_exit_of_own(pre: TableView, post: TableView, i: int)
    requires
        pre.inv(),
        0 <= i < pre.states.len(),
        pre.states[i].is_running(),
        exited(pre, post, pre.states[i].pid->0),
    ensures
        post.states.len() == pre.states.len(),
        post.states[i] == initial_state(),
{
    assert(pre.states[i].consistent());
    let p = pre.states[i].pid->0;
    assert(pre.indexes(p, i));
    let k0 = choose|k: int| 0 <= k < pre.reverse.len() && #[trigger] pre.reverse[k] == (p, i);
    assert(pre.reverse[k0].0 == p);
    let k = choose|k: int|
        0 <= k < pre.reverse.len() && #[trigger] pre.reverse[k].0 == p
            && post.reverse == pre.reverse.remove(k)
            && post.states == pre.states.update(pre.reverse[k].1, initial_state());
    assert(k == k0);
}

/// Along a run of reaped exits from `trace[0]`, the service at `i` keeps
/// its state until the exit of its PID, and is stopped from then on.
proof fn lemma_drain_prefix(trace: Seq<TableView>, exits: Seq<i32>, i: int, n: int)
    requires
        trace.len() == exits.len() + 1,
        forall|j: int| 0 <= j < trace.len() ==> (#[trigger] trace[j]).inv(),
        forall|j: int| 0 <= j < exits.len() ==> exited(#[trigger] trace[j], trace[j + 1], exits[j]),
        0 <= i < trace[0].states.len(),
        trace[0].states[i].is_running(),
        0 <= n <= exits.len(),
    ensures
        trace[n].states.len() == trace[0].states.len(),
        (exists|j: int| 0 <= j < n && exits[j] == trace[0].states[i].pid->0) ==> trace[n].states[i]
            == initial_state(),
        !(exists|j: int| 0 <= j < n && exits[j] == trace[0].states[i].pid->0) ==> trace[n].states[i]
            == trace[0].states[i],
    decreases n,
{
    if n > 0 {
        let m = n - 1;
        lemma_drain_prefix(trace, exits, i, m);
        let pre = trace[m];
        let post = trace[m + 1];
        assert(pre.inv());
        assert(exited(pre, post, exits[m]));
        let p = trace[0].states[i].pid->0;
        assert(trace[0].states[i].consistent());
        if pre.states[i].pid == Some(exits[m]) {
            if exists|j: int| 0 <= j < m && exits[j] == p {
                assert(pre.states[i] == initial_state());
            }
            lemma_exit_of_own(pre, post, i);
        } else {
            lemma_exit_of_other(pre, post, exits[m], i);
            if exists|j: int| 0 <= j < m && exits[j] == p {
            } else {
                assert(exits[m] != p);
                assert(!(exists|j: int| 0 <= j < n && exits[j] == p));
            }
        }
    }
}

/// After `Stop` of `name` decided to signal `group`, once the reaper has
/// drained a run of exits that includes the one of the signalled process,
/// the service is stopped, whatever other exits the run holds.
pub proof fn lemma_stop_then_reap(
    trace: Seq<TableView>,
    exits: Seq<i32>,
    name: Seq<char>,
    group: i32,
)
    requires
        trace.len() == exits.len() + 1,
        forall|j: int| 0 <= j < trace.len() ==> (#[trigger] trace[j]).inv(),
        forall|j: int| 0 <= j < exits.len() ==> exited(#[trigger] trace[j], trace[j + 1], exits[j]),
        stop_directive(trace[0], name, Directive::Signal(group)),
        exists|j: int| 0 <= j < exits.len() && exits[j] as int == -(group as int),
    ensures
        forall|i: int|
            0 <= i < trace.last().names.len() && trace.last().names[i] == name ==> {
                &&& trace.last().states[i].status == ServiceStatus::Stopped
                &&& trace.last().states[i].pid is None
            },
{
    let t0 = trace[0];
    assert(t0.inv());
    let i0 = choose|i: int|
        0 <= i < t0.names.len() && t0.names[i] == name && #[trigger] t0.states[i].is_running()
            && (t0.states[i].pid matches Some(p) && group as int == -(p as int));
    let n = exits.len() as int;
    lemma_drain_prefix(trace, exits, i0, n);
    let j0 = choose|j: int| 0 <= j < exits.len() && exits[j] as int == -(group as int);
    assert(exits[j0] == t0.states[i0].pid->0);
    let last = trace[n];
    assert(trace.last() == last);
    assert forall|k: int| 0 <= k <= n implies #[trigger] trace[k].names == t0.names by {
        lemma_names_kept(trace, exits, k);
    }
    assert forall|i: int|
        0 <= i < last.names.len() && last.names[i] == name implies last.states[i].status
        == ServiceStatus::Stopped && last.states[i].pid is None by {
        assert(last.names == t0.names);
        assert(i == i0);
    }
}

proof fn lemma_names_kept(trace: Seq<TableView>, exits: Seq<i32>, k: int)
    requires
        trace.len() == exits.len() + 1,
        forall|j: int| 0 <= j < exits.len() ==> exited(#[trigger] trace[j], trace[j + 1], exits[j]),
        0 <= k < trace.len(),
    ensures
        trace[k].names == trace[0].names,
    decreases k,
{
    if k > 0 {
        lemma_names_kept(trace, exits, k - 1);
        assert(exited(trace[k - 1], trace[k], exits[k - 1]));
    }
}

/// The action that follows a shutdown caused by a termination or interrupt
/// signal.
pub fn on_termination_signal() -> (r: PowerAction)
    ensures
        r == PowerAction::PowerOff,
{
    PowerAction::PowerOff
}


/// A `Start` of a running service decides nothing: no spawn, no new PID.
pub proof fn lemma_start_while_running(t: TableView, name: Seq<char>, d: Directive)
    requires
        t.inv(),
        runs(t, name),
        start_directive(t, name, d),
    ensures
        d is Nothing,
{
    if let Directive::Spawn(i, c) = d {
        let j = choose|j: int| 0 <= j < t.names.len() && t.names[j] == name && #[trigger] t.states[j].is_running();
        assert(j == i as int);
    }
}

/// A `Stop` of a service that does not run sends no signal.
pub proof fn lemma_stop_while_stopped(t: TableView, name: Seq<char>, d: Directive)
    requires
        t.inv(),
        !runs(t, name),
        stop_directive(t, name, d),
    ensures
        d is Nothing,
{
}

/// The exit of a PID that the reverse index does not hold changes nothing.
pub proof fn lemma_orphan_exit(pre: TableView, post: TableView, pid: i32)
    requires
        forall|k: int| 0 <= k < pre.reverse.len() ==> #[trigger] pre.reverse[k].0 != pid,
        exited(pre, post, pid),
    ensures
        post == pre,
{
}

} // verus!
