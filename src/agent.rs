use vstd::prelude::*;
use crate::observer::AgentEvent;

verus! {

/// Fuel that a new agent starts with.
pub const DEFAULT_FUEL: i64 = 2000;

/// Fuel of an agent once it has run dry; it stays at or below zero.
pub const DEPLETED_FUEL: i64 = -10;

/// The discrete state of an agent following a path: which waypoint it heads
/// for, its fuel, and whether it is done.
#[derive(Clone, Copy, Debug, PartialEq, Eq, Structural)]
pub struct AgentStatus {
    pub id: usize,
    pub current_waypoint: usize,
    pub path_len: usize,
    pub fuel: i64,
    pub is_finished: bool,
}

/// The state after one update and the event it raises. `arrived` says whether
/// the agent stands within the arrival tolerance of its current waypoint.
/// A finished agent does nothing. An agent without fuel raises `OutOfFuel` the
/// first time (fuel above -1) and drops to `DEPLETED_FUEL`. Otherwise an arrival
/// advances the waypoint, and reaching the end of the path finishes the agent.
pub open spec fn updated(s: AgentStatus, arrived: bool) -> (AgentStatus, Option<AgentEvent>) {
    if s.is_finished {
        (s, None)
    } else if s.fuel <= 0 {
        if s.fuel > -1 {
            (AgentStatus { fuel: DEPLETED_FUEL, ..s }, Some(AgentEvent::OutOfFuel))
        } else {
            (s, None)
        }
    } else if s.current_waypoint < s.path_len && arrived {
        let next = AgentStatus { current_waypoint: (s.current_waypoint + 1) as usize, ..s };
        if next.current_waypoint >= s.path_len {
            (AgentStatus { is_finished: true, ..next }, Some(AgentEvent::Finished))
        } else {
            (next, None)
        }
    } else {
        (s, None)
    }
}

/// The waypoint the agent heads for, if it may still move.
pub open spec fn target_spec(s: AgentStatus) -> Option<usize> {
    if s.is_finished || s.fuel <= 0 || s.current_waypoint >= s.path_len {
        None
    } else {
        Some(s.current_waypoint)
    }
}

impl AgentStatus {
    /// A fresh agent at the first waypoint of a path of `path_len` cells.
    pub fn new(id: usize, path_len: usize) -> (r: AgentStatus)
        ensures
            r == (AgentStatus {
                id,
                current_waypoint: 0,
                path_len,
                fuel: DEFAULT_FUEL,
                is_finished: false,
            }),
    {
        AgentStatus { id, current_waypoint: 0, path_len, fuel: DEFAULT_FUEL, is_finished: false }
    }

    /// One update; returns the event to hand to the agent's listeners.
    pub fn update(&mut self, arrived: bool) -> (r: Option<AgentEvent>)
        ensures
            (*final(self), r) == updated(*old(self), arrived),
    {
        if self.is_finished {
            return None;
        }
        if self.fuel <= 0 {
            if self.fuel > -1 {
                self.fuel = DEPLETED_FUEL;
                return Some(AgentEvent::OutOfFuel);
            }
            return None;
        }
        if self.current_waypoint < self.path_len && arrived {
            self.current_waypoint = self.current_waypoint + 1;
            if self.current_waypoint >= self.path_len {
                self.is_finished = true;
                return Some(AgentEvent::Finished);
            }
        }
        None
    }

    /// Index of the waypoint the agent heads for; `None` once it is finished,
    /// out of fuel, or past its path. Only an agent with a target moves.
    pub fn get_next_step_target(&self) -> (r: Option<usize>)
        ensures
            r == target_spec(*self),
    {
        if self.is_finished || self.fuel <= 0 || self.current_waypoint >= self.path_len {
            None
        } else {
            Some(self.current_waypoint)
        }
    }

    /// Whether events are still delivered to this agent: not once it finished.
    pub fn accepts_events(&self) -> (r: bool)
        ensures
            r == !self.is_finished,
    {
        !self.is_finished
    }
}

/// A finished agent stays as it is and raises no event, on every update.
pub proof fn lemma_finished_is_final(s: AgentStatus, arrived: bool)
    requires
        s.is_finished,
    ensures
        updated(s, arrived) == (s, None::<AgentEvent>),
        target_spec(s) is None,
{
}

/// An agent without fuel keeps no fuel, keeps its waypoint and finish flag,
/// has no target to move to, and raises nothing but a first `OutOfFuel`.
pub proof fn lemma_out_of_fuel_holds_still(s: AgentStatus, arrived: bool)
    requires
        s.fuel <= 0,
    ensures
        updated(s, arrived).0.fuel <= 0,
        updated(s, arrived).0.current_waypoint == s.current_waypoint,
        updated(s, arrived).0.is_finished == s.is_finished,
        target_spec(s) is None,
        target_spec(updated(s, arrived).0) is None,
        updated(s, arrived).1 is Some ==> updated(s, arrived).1 == Some(AgentEvent::OutOfFuel)
            && !s.is_finished,
        updated(updated(s, arrived).0, arrived).1 is None,
{
}

} // verus!
