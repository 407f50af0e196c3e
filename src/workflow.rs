//! The decisions of the host around app code: whether a publish consumer
//! runs again, and whether a zome may make a call.
use vstd::prelude::*;

verus! {

/// How far one run of a workflow got.
#[derive(Clone, Copy, Debug, PartialEq, Eq, Structural)]
pub enum WorkComplete {
    /// All queued work is done.
    Complete,
    /// Work is left: the consumer should run again.
    Incomplete,
}

/// What woke a consumer that waits for its next job.
#[derive(Clone, Copy, Debug, PartialEq, Eq, Structural)]
pub enum Wake {
    /// A job was triggered.
    Job,
    /// The trigger channel was closed.
    TriggerClosed,
    /// The cell is shutting down.
    Stop,
}

/// A publish consumer between two runs of its workflow.
#[derive(Clone, Copy, Debug, PartialEq, Eq, Structural)]
pub struct ConsumerState {
    /// Nobody has yet been told that the first run has completed.
    pub first_pending: bool,
}

/// What a consumer does after one run of its workflow.
#[derive(Clone, Copy, Debug, PartialEq, Eq, Structural)]
pub struct AfterRun {
    /// Trigger itself, so that it runs again.
    pub trigger_self: bool,
    /// Tell the cell that the first run has completed.
    pub notify_first: bool,
}

impl ConsumerState {
    pub fn new() -> (r: Self)
        ensures
            r.first_pending,
    {
        ConsumerState { first_pending: true }
    }

    /// Decide what follows a run that ended with `result`.
    pub fn after_run(&mut self, result: WorkComplete) -> (r: AfterRun)
        ensures
            r.trigger_self == (result == WorkComplete::Incomplete),
            r.notify_first == old(self).first_pending,
            !final(self).first_pending,
    {
        let notify_first = self.first_pending;
        self.first_pending = false;
        AfterRun { trigger_self: result == WorkComplete::Incomplete, notify_first }
    }
}

/// A consumer keeps running only when a job woke it.
pub fn keep_running(wake: Wake) -> (r: bool)
    ensures
        r == (wake == Wake::Job),
{
    match wake {
        Wake::Job => true,
        _ => false,
    }
}

/// Whether a host function may be used.
#[derive(Clone, Copy, Debug, PartialEq, Eq, Structural)]
pub enum Permission {
    Allow,
    Deny,
}

/// What the calling zome's context lets it do.
#[derive(Clone, Copy, Debug, PartialEq, Eq, Structural)]
pub struct HostFnAccess {
    pub agent_info: Permission,
    pub read_workspace: Permission,
    pub write_workspace: Permission,
    pub write_network: Permission,
}

/// Where a zome call goes.
#[derive(Clone, Copy, Debug, PartialEq, Eq, Structural)]
pub enum CallTargetKind {
    /// A cell of the same conductor, this one or another.
    ConductorCell,
    /// An agent reached over the network.
    NetworkAgent,
}

/// A call to a cell of the conductor needs to write the workspace, a call
/// to a remote agent needs the network; both need the agent's identity.
pub fn call_permitted(target: CallTargetKind, access: HostFnAccess) -> (r: bool)
    ensures
        r == (access.agent_info == Permission::Allow && match target {
            CallTargetKind::ConductorCell => access.write_workspace == Permission::Allow,
            CallTargetKind::NetworkAgent => access.write_network == Permission::Allow,
        }),
{
    let agent = match access.agent_info {
        Permission::Allow => true,
        Permission::Deny => false,
    };
    let target_ok = match target {
        CallTargetKind::ConductorCell => match access.write_workspace {
            Permission::Allow => true,
            Permission::Deny => false,
        },
        CallTargetKind::NetworkAgent => match access.write_network {
            Permission::Allow => true,
            Permission::Deny => false,
        },
    };
    agent && target_ok
}

} // verus!
