//! The shared run flag that coordinates orderly shutdown. Its value
//! moves in one direction only: `Running`, then `Stopping`, then
//! `Stopped`. Every callback observes it on entry and treats anything
//! but `Running` as "mute the output and ignore new events".

use vstd::prelude::*;

verus! {

/// The process-wide run state.
#[derive(Clone, Copy, PartialEq, Eq, Structural, Debug)]
pub enum RunState {
    Running,
    Stopping,
    Stopped,
}

/// How far along shutdown a state is; transitions never decrease it.
pub open spec fn shutdown_rank(s: RunState) -> int {
    match s {
        RunState::Running => 0,
        RunState::Stopping => 1,
        RunState::Stopped => 2,
    }
}

/// The single writer's view of the run flag. The write-once
/// `Running -> Stopping` transition is `request_stop`; the final
/// `Stopping -> Stopped` transition is taken by the control thread
/// after its shutdown grace period.
pub struct LifecycleController {
    pub state: RunState,
}

impl LifecycleController {
    /// Boots in `Running`.
    pub fn new() -> (lc: LifecycleController)
        ensures
            lc.state == RunState::Running,
    {
        LifecycleController { state: RunState::Running }
    }

    /// Whether callbacks may still produce sound and accept events.
    pub fn is_running(&self) -> (r: bool)
        ensures
            r == (self.state == RunState::Running),
    {
        match self.state {
            RunState::Running => true,
            _ => false,
        }
    }

    /// Requests shutdown: moves `Running` to `Stopping` exactly once
    /// and does nothing on a repeated call; the rank never decreases.
    pub fn request_stop(&mut self)
        ensures
            old(self).state == RunState::Running ==> final(self).state == RunState::Stopping,
            old(self).state != RunState::Running ==> final(self).state == old(self).state,
            shutdown_rank(final(self).state) >= shutdown_rank(old(self).state),
    {
        match self.state {
            RunState::Running => {
                self.state = RunState::Stopping;
            },
            _ => {},
        }
    }

    /// Declares shutdown complete: moves `Stopping` to `Stopped` and
    /// does nothing in any other state; the rank never decreases.
    pub fn mark_stopped(&mut self)
        ensures
            old(self).state == RunState::Stopping ==> final(self).state == RunState::Stopped,
            old(self).state != RunState::Stopping ==> final(self).state == old(self).state,
            shutdown_rank(final(self).state) >= shutdown_rank(old(self).state),
    {
        match self.state {
            RunState::Stopping => {
                self.state = RunState::Stopped;
            },
            _ => {},
        }
    }
}

} // verus!
