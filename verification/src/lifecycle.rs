use vstd::prelude::*;

verus! {

/// Lifecycle of one node context.
///
/// The only transitions are `Created -> Listening` (taken by `start` once the
/// endpoint is bound), `Listening -> Draining` (taken when a stop is
/// requested; no new connections are accepted from then on) and
/// `Draining -> Stopped` (taken once the accept path has fully exited).
/// `Stopped` is terminal.
#[derive(Clone, Copy, Debug, PartialEq, Eq, Structural)]
pub enum LifecycleState {
    /// The context exists but the accept path is not armed yet.
    Created,
    /// The node accepts connections and delivers header events.
    Listening,
    /// A stop was requested: no new connections, no further deliveries.
    Draining,
    /// Terminal: the accept path has exited and all resources are released.
    Stopped,
}

impl LifecycleState {
    /// The transition relation of the lifecycle state machine: `next` is
    /// reachable from `self` in one step.
    pub open spec fn can_step_to(self, next: LifecycleState) -> bool {
        ||| (self == LifecycleState::Created && next == LifecycleState::Listening)
        ||| (self == LifecycleState::Listening && next == LifecycleState::Draining)
        ||| (self == LifecycleState::Draining && next == LifecycleState::Stopped)
    }

    /// In this state the node may accept a new connection.
    pub open spec fn accepts_connections(self) -> bool {
        self == LifecycleState::Listening
    }

    /// In this state the node may still deliver a header event.
    pub open spec fn delivers_events(self) -> bool {
        self == LifecycleState::Listening
    }
}

/// `Stopped` has no successor: the state machine is terminal there.
pub proof fn lemma_stopped_is_terminal(next: LifecycleState)
    ensures
        !LifecycleState::Stopped.can_step_to(next),
{
}

} // verus!
