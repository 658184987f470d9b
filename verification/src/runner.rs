//! The decisions of the web runner that drives the application's updates.
use vstd::prelude::*;

verus! {

/// Whether an update is already queued as a microtask.
pub struct MicrotaskTrigger {
    pending: bool,
}

impl MicrotaskTrigger {
    /// An update is queued.
    pub closed spec fn is_pending(&self) -> bool {
        self.pending
    }

    /// Nothing queued.
    pub fn new() -> (r: Self)
        ensures
            !r.is_pending(),
    {
        MicrotaskTrigger { pending: false }
    }

    /// Asks for an update: returns whether the caller must queue the microtask that runs it,
    /// which is the case only when none is queued already.
    pub fn trigger(&mut self) -> (schedule: bool)
        ensures
            schedule == !old(self).is_pending(),
            final(self).is_pending(),
    {
        if !self.pending {
            self.pending = true;
            true
        } else {
            false
        }
    }

    /// The queued microtask runs: from now on a new update may be queued.
    pub fn microtask_ran(&mut self)
        ensures
            !final(self).is_pending(),
    {
        self.pending = false;
    }
}

/// A batch of requests for an update with no run of the microtask in between: `ts[i]` is the
/// trigger before request `i`, `ts[i + 1]` the trigger after it, and `rs[i]` its answer, as
/// [`MicrotaskTrigger::trigger`] gives them. Only the first request may queue the microtask,
/// and does so exactly when none was queued before the batch; afterwards one is queued.
pub proof fn law_trigger_batch(ts: Seq<MicrotaskTrigger>, rs: Seq<bool>)
    requires
        rs.len() >= 1,
        ts.len() == rs.len() + 1,
        forall|i: int| 0 <= i < rs.len() ==> #[trigger] rs[i] == !ts[i].is_pending(),
        forall|i: int| #![trigger rs[i]] 0 <= i < rs.len() ==> ts[i + 1].is_pending(),
    ensures
        rs[0] == !ts[0].is_pending(),
        forall|i: int| 1 <= i < rs.len() ==> !#[trigger] rs[i],
        ts.last().is_pending(),
{
    let last = rs.len() - 1;
    assert(rs[last] == !ts[last].is_pending());
    assert(ts[last + 1].is_pending());
    assert forall|i: int| 1 <= i < rs.len() implies !#[trigger] rs[i] by {
        assert(rs[i - 1] == !ts[i - 1].is_pending());
        assert(ts[(i - 1) + 1].is_pending());
    }
}

/// The stage that the application's plugins have reached.
#[derive(Debug, Clone, Copy, PartialEq, Eq, Structural)]
pub enum PluginsPhase {
    Adding,
    Ready,
    Finished,
    Cleaned,
}

/// What the runner does when woken.
#[derive(Debug, Clone, Copy, PartialEq, Eq, Structural)]
pub enum RunnerAction {
    /// Wake the runner again.
    Notify,
    /// Finish the plugins, then wake the runner again.
    FinishAndNotify,
    /// Clean the plugins up, then wake the runner again.
    CleanupAndNotify,
    /// Run one update of the application.
    Update,
}

/// The runner's action for the stage the plugins have reached: until they are cleaned up it
/// moves them on a stage and wakes itself; afterwards it runs updates.
pub fn runner_action(phase: PluginsPhase) -> (r: RunnerAction)
    ensures
        r == match phase {
            PluginsPhase::Adding => RunnerAction::Notify,
            PluginsPhase::Ready => RunnerAction::FinishAndNotify,
            PluginsPhase::Finished => RunnerAction::CleanupAndNotify,
            PluginsPhase::Cleaned => RunnerAction::Update,
        },
{
    match phase {
        PluginsPhase::Adding => RunnerAction::Notify,
        PluginsPhase::Ready => RunnerAction::FinishAndNotify,
        PluginsPhase::Finished => RunnerAction::CleanupAndNotify,
        PluginsPhase::Cleaned => RunnerAction::Update,
    }
}

} // verus!
