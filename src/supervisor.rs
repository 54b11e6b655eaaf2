//! The child process as the parent sees it: the configuration fixed at spawn,
//! the order of the child's setup, and its liveness.
use vstd::prelude::*;

verus! {

/// Open-file limit the child lowers itself to by default.
pub const DEFAULT_FD_LIMIT: u64 = 64;

/// Worker threads in the child by default.
pub const DEFAULT_WORKERS: usize = 4;

/// A user and a group to run as.
#[derive(Clone, Copy, Debug, PartialEq, Eq, Structural)]
pub struct Identity {
    pub uid: u32,
    pub gid: u32,
}

/// What the child is given at spawn and keeps for its lifetime.
#[derive(Clone, Copy, Debug, PartialEq, Eq, Structural)]
pub struct Config {
    /// Answer with the stub engine instead of the real one.
    pub stub_mode: bool,
    /// Size of the child's worker pool.
    pub workers: usize,
    /// The child's open-file limit.
    pub fd_limit: u64,
    /// User and group ids the child switches to, if any.
    pub run_as: Option<Identity>,
}

impl Config {
    /// Real engine, the default pool and limit, no identity switch.
    pub fn new() -> (r: Config)
        ensures
            r == (Config {
                stub_mode: false,
                workers: DEFAULT_WORKERS,
                fd_limit: DEFAULT_FD_LIMIT,
                run_as: None,
            }),
    {
        Config { stub_mode: false, workers: DEFAULT_WORKERS, fd_limit: DEFAULT_FD_LIMIT, run_as: None }
    }
}

/// One thing the child does before it serves.
#[derive(Clone, Copy, Debug, PartialEq, Eq, Structural)]
pub enum SetupStep {
    LimitOpenFiles(u64),
    SwitchIdentity(Identity),
    StartWorkers(usize),
}

/// The child's setup, in order: lower the open-file limit, switch identity
/// while still single-threaded, and only then start the worker pool.
pub open spec fn setup_plan(c: Config) -> Seq<SetupStep> {
    match c.run_as {
        Some(id) => seq![
            SetupStep::LimitOpenFiles(c.fd_limit),
            SetupStep::SwitchIdentity(id),
            SetupStep::StartWorkers(c.workers),
        ],
        None => seq![SetupStep::LimitOpenFiles(c.fd_limit), SetupStep::StartWorkers(c.workers)],
    }
}

pub fn child_setup(c: &Config) -> (r: Vec<SetupStep>)
    ensures
        r@ == setup_plan(*c),
{
    let mut steps: Vec<SetupStep> = Vec::new();
    steps.push(SetupStep::LimitOpenFiles(c.fd_limit));
    match c.run_as {
        Some(id) => steps.push(SetupStep::SwitchIdentity(id)),
        None => {},
    }
    steps.push(SetupStep::StartWorkers(c.workers));
    assert(steps@ =~= setup_plan(*c));
    steps
}

/// Whether the child can take requests.
#[derive(Clone, Copy, Debug, PartialEq, Eq, Structural)]
pub enum Liveness {
    Starting,
    Running,
    Exited(i32),
    Crashed(i32),
}

/// What the parent learns about the child.
#[derive(Clone, Copy, Debug, PartialEq, Eq, Structural)]
pub enum ChildEvent {
    /// The child finished its setup and serves.
    Ready,
    /// The child exited with this status.
    ExitedWith(i32),
    /// A signal killed the child.
    KilledBy(i32),
    /// The channel to the child closed or broke.
    ChannelBroken,
}

pub open spec fn is_live(l: Liveness) -> bool {
    l is Starting || l is Running
}

/// The liveness after `ev`. An ended child stays as it ended; a broken channel
/// ends a live child as a crash without a signal.
pub open spec fn next_liveness(l: Liveness, ev: ChildEvent) -> Liveness {
    if !is_live(l) {
        l
    } else {
        match ev {
            ChildEvent::Ready => Liveness::Running,
            ChildEvent::ExitedWith(code) => Liveness::Exited(code),
            ChildEvent::KilledBy(sig) => Liveness::Crashed(sig),
            ChildEvent::ChannelBroken => Liveness::Crashed(0),
        }
    }
}

/// The child process: its id and its liveness.
#[derive(Clone, Copy, Debug, PartialEq, Eq, Structural)]
pub struct ChildHandle {
    pub pid: u32,
    pub liveness: Liveness,
}

impl ChildHandle {
    /// A child just spawned.
    pub fn new(pid: u32) -> (r: ChildHandle)
        ensures
            r.pid == pid,
            r.liveness == Liveness::Starting,
    {
        ChildHandle { pid, liveness: Liveness::Starting }
    }

    /// Applies `ev`; `true` exactly when it ended a live child, which is when
    /// the waiting requests are to be failed.
    pub fn observe(&mut self, ev: ChildEvent) -> (ended: bool)
        ensures
            final(self).pid == old(self).pid,
            final(self).liveness == next_liveness(old(self).liveness, ev),
            ended == (is_live(old(self).liveness) && !is_live(final(self).liveness)),
    {
        let live = match self.liveness {
            Liveness::Starting | Liveness::Running => true,
            _ => false,
        };
        if !live {
            return false;
        }
        self.liveness = match ev {
            ChildEvent::Ready => Liveness::Running,
            ChildEvent::ExitedWith(code) => Liveness::Exited(code),
            ChildEvent::KilledBy(sig) => Liveness::Crashed(sig),
            ChildEvent::ChannelBroken => Liveness::Crashed(0),
        };
        match ev {
            ChildEvent::Ready => false,
            _ => true,
        }
    }
}

/// However many signals report the child's end, only the first ends it.
pub proof fn lemma_end_reported_once(l: Liveness, a: ChildEvent, b: ChildEvent)
    requires
        is_live(l),
        !is_live(next_liveness(l, a)),
    ensures
        next_liveness(next_liveness(l, a), b) == next_liveness(l, a),
        !is_live(next_liveness(next_liveness(l, a), b)),
{
}

} // verus!
