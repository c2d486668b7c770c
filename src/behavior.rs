use vstd::prelude::*;
use crate::observer::AgentEvent;
use crate::random::random_range;

verus! {

// Timers count milliseconds; speed multipliers are percentages; target
// offsets are hundredths of a pixel.

/// Shortest reactive period of the speed modulator.
pub const BOOST_MIN_MS: u64 = 200;
/// Longest reactive period of the speed modulator.
pub const BOOST_MAX_MS: u64 = 500;
/// Smallest reactive speed multiplier.
pub const BOOST_MIN_PERCENT: u64 = 50;
/// Largest reactive speed multiplier.
pub const BOOST_MAX_PERCENT: u64 = 140;
/// Shortest jitter period.
pub const JITTER_MIN_MS: u64 = 100;
/// Longest jitter period.
pub const JITTER_MAX_MS: u64 = 300;
/// Largest jitter offset on each axis.
pub const JITTER_MAX_OFFSET: i64 = 200;
/// How long a collision shows.
pub const COLLISION_ALERT_MS: u64 = 500;
/// How long a proximity warning shows.
pub const PROXIMITY_ALERT_MS: u64 = 100;

/// A timer after `dt` milliseconds: it counts down and stops at zero.
pub open spec fn count_down(remaining: u64, dt: u64) -> u64 {
    if remaining > dt {
        (remaining - dt) as u64
    } else {
        0
    }
}

fn counted_down(remaining: u64, dt: u64) -> (r: u64)
    ensures
        r == count_down(remaining, dt),
{
    if remaining > dt {
        remaining - dt
    } else {
        0
    }
}

/// Scales the time handed to the agent: a base multiplier, replaced for a
/// short while by a random one after a proximity alert.
#[derive(Clone, Copy, Debug, PartialEq, Eq, Structural)]
pub struct SpeedBoostDecorator {
    pub base_percent: u64,
    pub remaining_ms: u64,
    pub percent: u64,
}

impl SpeedBoostDecorator {
    pub fn new(base_percent: u64) -> (r: Self)
        ensures
            r == (SpeedBoostDecorator { base_percent, remaining_ms: 0, percent: base_percent }),
    {
        SpeedBoostDecorator { base_percent, remaining_ms: 0, percent: base_percent }
    }

    /// Advances the timer by `dt_ms` and returns the multiplier, in percent, to
    /// apply to this tick's time. When the reactive period runs out the base
    /// multiplier comes back.
    pub fn update(&mut self, dt_ms: u64) -> (r: u64)
        ensures
            final(self).base_percent == old(self).base_percent,
            final(self).remaining_ms == if old(self).remaining_ms > 0 {
                count_down(old(self).remaining_ms, dt_ms)
            } else {
                0
            },
            final(self).percent == if old(self).remaining_ms > 0 && final(self).remaining_ms == 0 {
                old(self).base_percent
            } else {
                old(self).percent
            },
            r == final(self).percent,
    {
        if self.remaining_ms > 0 {
            self.remaining_ms = counted_down(self.remaining_ms, dt_ms);
            if self.remaining_ms == 0 {
                self.percent = self.base_percent;
            }
        }
        self.percent
    }

    /// Reacts to an event with the given period and multiplier: a proximity
    /// alert while idle starts a reactive period; anything else changes nothing.
    pub fn react(&mut self, event: AgentEvent, duration_ms: u64, percent: u64)
        ensures
            *final(self) == if event is ProximityAlert && old(self).remaining_ms == 0 {
                SpeedBoostDecorator { remaining_ms: duration_ms, percent, ..*old(self) }
            } else {
                *old(self)
            },
    {
        if let AgentEvent::ProximityAlert(_) = event {
            if self.remaining_ms == 0 {
                self.remaining_ms = duration_ms;
                self.percent = percent;
            }
        }
    }

    /// Reacts to an event, drawing the period in `[BOOST_MIN_MS, BOOST_MAX_MS]`
    /// and the multiplier in `[BOOST_MIN_PERCENT, BOOST_MAX_PERCENT]`.
    pub fn notify(&mut self, event: AgentEvent)
        ensures
            final(self).base_percent == old(self).base_percent,
            !(event is ProximityAlert && old(self).remaining_ms == 0) ==> *final(self) == *old(self),
            event is ProximityAlert && old(self).remaining_ms == 0 ==> {
                &&& BOOST_MIN_MS <= final(self).remaining_ms <= BOOST_MAX_MS
                &&& BOOST_MIN_PERCENT <= final(self).percent <= BOOST_MAX_PERCENT
            },
    {
        let d = random_range(BOOST_MIN_MS, BOOST_MAX_MS);
        let p = random_range(BOOST_MIN_PERCENT, BOOST_MAX_PERCENT);
        self.react(event, d, p);
    }
}

/// Offsets the agent's target by a small random vector for a short while
/// after a proximity alert.
#[derive(Clone, Copy, Debug, PartialEq, Eq, Structural)]
pub struct DirectionDeviateDecorator {
    pub remaining_ms: u64,
    pub offset_x: i64,
    pub offset_y: i64,
}

impl DirectionDeviateDecorator {
    pub fn new() -> (r: Self)
        ensures
            r == (DirectionDeviateDecorator { remaining_ms: 0, offset_x: 0, offset_y: 0 }),
    {
        DirectionDeviateDecorator { remaining_ms: 0, offset_x: 0, offset_y: 0 }
    }

    /// Advances the timer by `dt_ms`.
    pub fn update(&mut self, dt_ms: u64)
        ensures
            *final(self) == (DirectionDeviateDecorator {
                remaining_ms: count_down(old(self).remaining_ms, dt_ms),
                ..*old(self)
            }),
    {
        self.remaining_ms = counted_down(self.remaining_ms, dt_ms);
    }

    /// Reacts to an event with the given period and offset: a proximity alert
    /// while idle arms the offset; anything else changes nothing.
    pub fn react(&mut self, event: AgentEvent, duration_ms: u64, offset: (i64, i64))
        ensures
            *final(self) == if event is ProximityAlert && old(self).remaining_ms == 0 {
                DirectionDeviateDecorator { remaining_ms: duration_ms, offset_x: offset.0, offset_y: offset.1 }
            } else {
                *old(self)
            },
    {
        if let AgentEvent::ProximityAlert(_) = event {
            if self.remaining_ms == 0 {
                self.remaining_ms = duration_ms;
                self.offset_x = offset.0;
                self.offset_y = offset.1;
            }
        }
    }

    /// Reacts to an event, drawing the period in `[JITTER_MIN_MS, JITTER_MAX_MS]`
    /// and each offset in `[-JITTER_MAX_OFFSET, JITTER_MAX_OFFSET]`.
    pub fn notify(&mut self, event: AgentEvent)
        ensures
            !(event is ProximityAlert && old(self).remaining_ms == 0) ==> *final(self) == *old(self),
            event is ProximityAlert && old(self).remaining_ms == 0 ==> {
                &&& JITTER_MIN_MS <= final(self).remaining_ms <= JITTER_MAX_MS
                &&& -JITTER_MAX_OFFSET <= final(self).offset_x <= JITTER_MAX_OFFSET
                &&& -JITTER_MAX_OFFSET <= final(self).offset_y <= JITTER_MAX_OFFSET
            },
    {
        let d = random_range(JITTER_MIN_MS, JITTER_MAX_MS);
        let span = (2 * JITTER_MAX_OFFSET) as u64;
        let dx = random_range(0, span);
        let dy = random_range(0, span);
        self.react(event, d, (dx as i64 - JITTER_MAX_OFFSET, dy as i64 - JITTER_MAX_OFFSET));
    }

    /// The offset to add to the inner target, while armed.
    pub fn active_offset(&self) -> (r: Option<(i64, i64)>)
        ensures
            r == if self.remaining_ms > 0 {
                Some((self.offset_x, self.offset_y))
            } else {
                None::<(i64, i64)>
            },
    {
        if self.remaining_ms > 0 {
            Some((self.offset_x, self.offset_y))
        } else {
            None
        }
    }
}

/// The highlight of an agent's sensing ring.
#[derive(Clone, Copy, Debug, PartialEq, Eq, Structural)]
pub enum AlertColor {
    /// No alert: the agent's own colour.
    Calm,
    Orange,
    Red,
}

/// Highlights collisions in red and proximity in orange, for a short while;
/// red is not overridden by orange while it shows.
#[derive(Clone, Copy, Debug, PartialEq, Eq, Structural)]
pub struct VisualAlertDecorator {
    pub remaining_ms: u64,
    pub color: AlertColor,
}

/// The alert state after an event.
pub open spec fn alerted(s: VisualAlertDecorator, event: AgentEvent) -> VisualAlertDecorator {
    match event {
        AgentEvent::CollisionHit(_) => VisualAlertDecorator {
            remaining_ms: COLLISION_ALERT_MS,
            color: AlertColor::Red,
        },
        AgentEvent::ProximityAlert(_) => if s.color != AlertColor::Red || s.remaining_ms == 0 {
            VisualAlertDecorator { remaining_ms: PROXIMITY_ALERT_MS, color: AlertColor::Orange }
        } else {
            s
        },
        _ => s,
    }
}

impl VisualAlertDecorator {
    pub fn new() -> (r: Self)
        ensures
            r == (VisualAlertDecorator { remaining_ms: 0, color: AlertColor::Calm }),
    {
        VisualAlertDecorator { remaining_ms: 0, color: AlertColor::Calm }
    }

    /// Advances the timer by `dt_ms`.
    pub fn update(&mut self, dt_ms: u64)
        ensures
            *final(self) == (VisualAlertDecorator {
                remaining_ms: count_down(old(self).remaining_ms, dt_ms),
                ..*old(self)
            }),
    {
        self.remaining_ms = counted_down(self.remaining_ms, dt_ms);
    }

    pub fn notify(&mut self, event: AgentEvent)
        ensures
            *final(self) == alerted(*old(self), event),
    {
        match event {
            AgentEvent::CollisionHit(_) => {
                self.remaining_ms = COLLISION_ALERT_MS;
                self.color = AlertColor::Red;
            },
            AgentEvent::ProximityAlert(_) => {
                if self.color != AlertColor::Red || self.remaining_ms == 0 {
                    self.remaining_ms = PROXIMITY_ALERT_MS;
                    self.color = AlertColor::Orange;
                }
            },
            _ => {},
        }
    }

    /// The highlight in effect: the alert colour while its timer runs, else calm.
    pub fn get_detection_color(&self) -> (r: AlertColor)
        ensures
            r == if self.remaining_ms > 0 {
                self.color
            } else {
                AlertColor::Calm
            },
    {
        if self.remaining_ms > 0 {
            self.color
        } else {
            AlertColor::Calm
        }
    }
}

/// A collision shows red, and a proximity alert while red still shows leaves it red.
pub proof fn lemma_red_dominates(s: VisualAlertDecorator, other: usize, near: usize)
    ensures
        alerted(s, AgentEvent::CollisionHit(other)).color == AlertColor::Red,
        alerted(alerted(s, AgentEvent::CollisionHit(other)), AgentEvent::ProximityAlert(near))
            == alerted(s, AgentEvent::CollisionHit(other)),
{
}

} // verus!
