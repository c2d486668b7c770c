use vstd::prelude::*;

verus! {

/// What can happen to an agent.
#[derive(Clone, Copy, Debug, PartialEq, Eq, Structural)]
pub enum AgentEvent {
    /// The agent ran out of fuel.
    OutOfFuel,
    /// The agent reached the end of its path.
    Finished,
    /// Another agent (by id) came within sensing range.
    ProximityAlert(usize),
    /// Another agent (by id) overlaps this one.
    CollisionHit(usize),
}

/// A listener for agent events.
pub trait Observer {
    fn on_notify(&self, agent_id: usize, event: AgentEvent);
}

} // verus!
