//! The decision taken at each frame: advance the simulation by one tick, or
//! hold it unchanged while paused. The caller runs the tick only on
//! `Step::Advance`, so a paused simulation stays exactly as it was.
use vstd::prelude::*;

verus! {

/// What the caller does with a frame.
#[derive(Clone, Copy, Debug, PartialEq, Eq, Structural)]
pub enum Step {
    /// Run one full tick: forces, velocities, guard, positions.
    Advance,
    /// Leave positions and velocities as they are.
    Hold,
}

/// The pause flag and the number of ticks run so far.
pub struct TickControl {
    paused: bool,
    ticks: u64,
}

/// The state after a frame, and what the caller does with it: while paused
/// nothing changes; otherwise one more tick is counted (saturating).
pub open spec fn next_frame(state: (bool, u64)) -> ((bool, u64), Step) {
    if state.0 {
        (state, Step::Hold)
    } else if state.1 == u64::MAX {
        (state, Step::Advance)
    } else {
        ((false, (state.1 + 1) as u64), Step::Advance)
    }
}

impl View for TickControl {
    type V = (bool, u64);

    closed spec fn view(&self) -> (bool, u64) {
        (self.paused, self.ticks)
    }
}

impl TickControl {
    /// A running simulation that has taken no tick.
    pub fn new() -> (r: TickControl)
        ensures
            r@ == (false, 0u64),
    {
        TickControl { paused: false, ticks: 0 }
    }

    pub fn is_paused(&self) -> (r: bool)
        ensures
            r == self@.0,
    {
        self.paused
    }

    /// The number of ticks run so far.
    pub fn ticks(&self) -> (r: u64)
        ensures
            r == self@.1,
    {
        self.ticks
    }

    pub fn set_paused(&mut self, paused: bool)
        ensures
            final(self)@ == (paused, old(self)@.1),
    {
        self.paused = paused;
    }

    /// Decides one frame.
    pub fn frame(&mut self) -> (r: Step)
        ensures
            (final(self)@, r) == next_frame(old(self)@),
    {
        if self.paused {
            Step::Hold
        } else {
            self.ticks = self.ticks.saturating_add(1);
            Step::Advance
        }
    }
}

/// Two frames while paused hold both times and change nothing, so the state
/// the caller sees after the second is the one it saw after the first.
pub proof fn lemma_paused_frames_hold(state: (bool, u64))
    requires
        state.0,
    ensures
        next_frame(state) == (state, Step::Hold),
        next_frame(next_frame(state).0) == next_frame(state),
{
}

} // verus!
