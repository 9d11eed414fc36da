//! The decisions of the loop that redraws the chart: how long to wait for a
//! key after a frame, when a key stops the loop, and when a tick is over.
//!
//! The loop itself draws and waits; it tells this module what time it is and
//! what the wait brought. Times are nanoseconds on a clock that never runs
//! backwards.

use vstd::prelude::*;

verus! {

/// The time from one tick to the next, in nanoseconds.
pub const TICK_RATE: u64 = 250_000_000;

/// The key that stops the loop.
pub const QUIT_KEY: char = 'q';

/// Whether the loop goes on.
#[derive(Clone, Copy, Debug, PartialEq, Eq, Structural)]
pub enum LoopState {
    Running,
    Stopped,
}

/// What a wait for input brought.
#[derive(Clone, Copy, Debug, PartialEq, Eq, Structural)]
pub enum Input {
    /// The key of a character was pressed.
    Key(char),
    /// Something else came in: another key, the mouse, a new size.
    Other,
    /// The wait ran out.
    Timeout,
}

/// The loop's state: whether it runs, how long a tick is and when the
/// current one began.
#[derive(Clone, Copy, Debug, PartialEq, Eq, Structural)]
pub struct RenderLoop {
    pub state: LoopState,
    pub tick_rate: u64,
    pub last_tick: u64,
}

/// The time from `last_tick` to `now`; none where `now` is the earlier.
pub open spec fn elapsed(last_tick: int, now: int) -> int {
    if now >= last_tick {
        now - last_tick
    } else {
        0
    }
}

/// What is left at `now` of the tick that began at `last_tick`; nothing once
/// the tick is over.
pub open spec fn remaining(tick_rate: int, last_tick: int, now: int) -> int {
    if elapsed(last_tick, now) >= tick_rate {
        0
    } else {
        tick_rate - elapsed(last_tick, now)
    }
}

/// Whether `input` is the key that stops the loop.
pub open spec fn is_quit(input: Input) -> bool {
    input == Input::Key('q')
}

/// The loop after a wait that ended at `now` with `input`. The quit key stops
/// a running loop; anything else leaves it running and begins a new tick if
/// the current one is over. A stopped loop stays as it is.
pub open spec fn after_input(before: RenderLoop, input: Input, now: u64) -> RenderLoop {
    if before.state == LoopState::Stopped {
        before
    } else if is_quit(input) {
        RenderLoop { state: LoopState::Stopped, ..before }
    } else if elapsed(before.last_tick as int, now as int) >= before.tick_rate {
        RenderLoop { last_tick: now, ..before }
    } else {
        before
    }
}

impl RenderLoop {
    /// A running loop whose first tick begins at `now`.
    pub fn new(tick_rate: u64, now: u64) -> (r: RenderLoop)
        ensures
            r == (RenderLoop { state: LoopState::Running, tick_rate, last_tick: now }),
    {
        RenderLoop { state: LoopState::Running, tick_rate, last_tick: now }
    }

    /// Whether the loop goes on.
    pub fn is_running(&self) -> (r: bool)
        ensures
            r == (self.state == LoopState::Running),
    {
        match self.state {
            LoopState::Running => true,
            LoopState::Stopped => false,
        }
    }

    /// The time since the current tick began.
    fn since_tick(&self, now: u64) -> (r: u64)
        ensures
            r == elapsed(self.last_tick as int, now as int),
    {
        if now >= self.last_tick {
            now - self.last_tick
        } else {
            0
        }
    }

    /// How long to wait for input at `now`: what is left of the current
    /// tick.
    pub fn poll_timeout(&self, now: u64) -> (r: u64)
        ensures
            r == remaining(self.tick_rate as int, self.last_tick as int, now as int),
            r <= self.tick_rate,
    {
        let gone: u64 = self.since_tick(now);
        if gone >= self.tick_rate {
            0
        } else {
            self.tick_rate - gone
        }
    }

    /// Takes in what a wait brought at `now`, and says whether the loop goes
    /// on.
    pub fn handle_input(&mut self, input: Input, now: u64) -> (r: LoopState)
        ensures
            *final(self) == after_input(*old(self), input, now),
            r == final(self).state,
    {
        if !self.is_running() {
            return LoopState::Stopped;
        }
        let quit: bool = match input {
            Input::Key(c) => c == QUIT_KEY,
            _ => false,
        };
        if quit {
            self.state = LoopState::Stopped;
            return LoopState::Stopped;
        }
        if self.since_tick(now) >= self.tick_rate {
            self.last_tick = now;
        }
        LoopState::Running
    }
}

/// Only the quit key stops a running loop, and it stops it whenever it
/// comes.
pub proof fn lemma_only_quit_stops(before: RenderLoop, input: Input, now: u64)
    requires
        before.state == LoopState::Running,
    ensures
        after_input(before, input, now).state == LoopState::Stopped <==> input == Input::Key('q'),
        after_input(before, input, now).tick_rate == before.tick_rate,
{
}

/// Nothing starts a stopped loop again.
pub proof fn lemma_stopped_stays(before: RenderLoop, input: Input, now: u64)
    requires
        before.state == LoopState::Stopped,
    ensures
        after_input(before, input, now) == before,
{
}

/// A wait never lasts longer than a tick, nor past the end of the current
/// one.
pub proof fn lemma_wait_is_bounded(tick_rate: int, last_tick: int, now: int)
    requires
        0 <= tick_rate,
    ensures
        0 <= remaining(tick_rate, last_tick, now) <= tick_rate,
        last_tick <= now && remaining(tick_rate, last_tick, now) > 0 ==> now + remaining(
            tick_rate,
            last_tick,
            now,
        ) == last_tick + tick_rate,
{
}

} // verus!
