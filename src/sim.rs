//! The simulation driver: a running/paused state machine that ticks the
//! world at a fixed interval and reacts to control keys. The caller owns the
//! clock and the input devices, and hands in times and events.
use vstd::prelude::*;
use crate::agent::{Agent, AgentType};
use crate::world::{built_from, tick_result, turns_valid, World};

verus! {

/// Milliseconds between two ticks.
pub const GAME_SPEED: u64 = 50;

/// Width of the default world.
pub const DEFAULT_WIDTH: i32 = 160;

/// Height of the default world.
pub const DEFAULT_HEIGHT: i32 = 90;

/// Agents of each kind in the default world.
pub const DEFAULT_PAIRS: usize = 100;

#[derive(Clone, Copy, PartialEq, Eq, Structural, Debug)]
pub enum GameState {
    Running,
    Paused,
}

/// The control keys the driver reacts to.
#[derive(Clone, Copy, PartialEq, Eq, Structural, Debug)]
pub enum Key {
    /// Pause.
    P,
    /// Resume.
    R,
    /// Quit.
    Q,
    /// Toggle follow mode.
    F,
    /// Any other key.
    Other,
}

pub struct Simulation {
    pub world: World,
    pub state: GameState,
    pub last_update_ms: u64,
    pub update_interval_ms: u64,
    pub follow_mouse: bool,
    pub mouse_position: (i32, i32),
}

impl Simulation {
    pub open spec fn wf(self) -> bool {
        self.world.wf()
    }

    /// The state and follow mode after `key`, and whether it asks to quit.
    pub open spec fn after_key(self, key: Key) -> (GameState, bool, bool) {
        match (self.state, key) {
            (GameState::Running, Key::P) => (GameState::Paused, self.follow_mouse, false),
            (GameState::Paused, Key::R) => (GameState::Running, self.follow_mouse, false),
            (GameState::Paused, Key::Q) => (self.state, self.follow_mouse, true),
            (GameState::Paused, Key::F) => (self.state, !self.follow_mouse, false),
            _ => (self.state, self.follow_mouse, false),
        }
    }

    /// A running simulation over a default world with randomly scattered
    /// agents, started at time `now_ms`.
    pub fn new(now_ms: u64) -> (r: Simulation)
        ensures
            r.wf(),
            r.state == GameState::Running,
            r.last_update_ms == now_ms,
            r.update_interval_ms == GAME_SPEED,
            !r.follow_mouse,
            r.mouse_position == (0i32, 0i32),
            r.world.width == DEFAULT_WIDTH,
            r.world.height == DEFAULT_HEIGHT,
            r.world.agents@.len() == 2 * DEFAULT_PAIRS,
            forall|k: int|
                0 <= k < r.world.agents@.len() ==> {
                    let a = #[trigger] r.world.agents@[k];
                    &&& a == Agent::new_spec(
                        a.x,
                        a.y,
                        if k % 2 == 0 {
                            AgentType::TypeA
                        } else {
                            AgentType::TypeB
                        },
                    )
                    &&& 0 <= a.x < DEFAULT_WIDTH
                    &&& 0 <= a.y < DEFAULT_HEIGHT
                },
    {
        let mut world = World::with_size(DEFAULT_WIDTH, DEFAULT_HEIGHT);
        world.scatter(DEFAULT_PAIRS);
        Simulation {
            world,
            state: GameState::Running,
            last_update_ms: now_ms,
            update_interval_ms: GAME_SPEED,
            follow_mouse: false,
            mouse_position: (0, 0),
        }
    }

    /// Flips between running and paused.
    pub fn toggle_pause(&mut self)
        ensures
            final(self).state == match old(self).state {
                GameState::Running => GameState::Paused,
                GameState::Paused => GameState::Running,
            },
            final(self).world == old(self).world,
            final(self).follow_mouse == old(self).follow_mouse,
            final(self).last_update_ms == old(self).last_update_ms,
            final(self).update_interval_ms == old(self).update_interval_ms,
            final(self).mouse_position == old(self).mouse_position,
    {
        self.state = match self.state {
            GameState::Running => GameState::Paused,
            GameState::Paused => GameState::Running,
        };
    }

    /// Reacts to a key press: `P` pauses a running simulation; while
    /// paused, `R` resumes, `F` toggles follow mode and `Q` asks to quit.
    /// Returns whether to quit.
    pub fn key_down(&mut self, key: Key) -> (quit: bool)
        ensures
            (final(self).state, final(self).follow_mouse, quit) == old(self).after_key(key),
            final(self).world == old(self).world,
            final(self).last_update_ms == old(self).last_update_ms,
            final(self).update_interval_ms == old(self).update_interval_ms,
            final(self).mouse_position == old(self).mouse_position,
    {
        match (self.state, key) {
            (GameState::Running, Key::P) => {
                self.toggle_pause();
                false
            },
            (GameState::Paused, Key::R) => {
                self.toggle_pause();
                false
            },
            (GameState::Paused, Key::Q) => true,
            (GameState::Paused, Key::F) => {
                self.follow_mouse = !self.follow_mouse;
                false
            },
            _ => false,
        }
    }

    /// Records the pointer's rendered position.
    pub fn mouse_motion(&mut self, x: i32, y: i32)
        ensures
            final(self).mouse_position == (x, y),
            final(self).world == old(self).world,
            final(self).state == old(self).state,
            final(self).follow_mouse == old(self).follow_mouse,
            final(self).last_update_ms == old(self).last_update_ms,
            final(self).update_interval_ms == old(self).update_interval_ms,
    {
        self.mouse_position = (x, y);
    }

    /// The follow target handed to a tick: the pointer, in follow mode.
    pub open spec fn follow_target(self) -> Option<(i32, i32)> {
        if self.follow_mouse { Some(self.mouse_position) } else { None }
    }

    /// Called with the time `now_ms`: once at least the update interval has
    /// passed since the last update, ticks the world if running and records
    /// the time. Returns whether the world ticked.
    pub fn update(&mut self, now_ms: u64) -> (ticked: bool)
        requires
            old(self).wf(),
        ensures
            final(self).wf(),
            final(self).state == old(self).state,
            final(self).follow_mouse == old(self).follow_mouse,
            final(self).mouse_position == old(self).mouse_position,
            final(self).update_interval_ms == old(self).update_interval_ms,
            ({
                let due = now_ms >= old(self).last_update_ms && now_ms - old(self).last_update_ms
                    >= old(self).update_interval_ms;
                &&& ticked == (due && old(self).state == GameState::Running)
                &&& final(self).last_update_ms == if due {
                    now_ms
                } else {
                    old(self).last_update_ms
                }
                &&& !ticked ==> final(self).world == old(self).world
                &&& ticked ==> built_from(final(self).world.grid, old(self).world.agents@)
                &&& ticked ==> exists|turns: Seq<i64>|
                    turns.len() == old(self).world.agents@.len() && turns_valid(turns)
                        && #[trigger] final(self).world.agents@ == tick_result(
                        old(self).world.agents@,
                        final(self).world.grid,
                        old(self).follow_target(),
                        turns,
                        old(self).world.width as int,
                        old(self).world.height as int,
                    )
                &&& final(self).world.width == old(self).world.width
                &&& final(self).world.height == old(self).world.height
            }),
    {
        if now_ms >= self.last_update_ms && now_ms - self.last_update_ms >= self.update_interval_ms {
            let ticked = match self.state {
                GameState::Running => {
                    let target = if self.follow_mouse { Some(self.mouse_position) } else { None };
                    self.world.update(target);
                    true
                },
                GameState::Paused => false,
            };
            self.last_update_ms = now_ms;
            ticked
        } else {
            false
        }
    }
}

} // verus!
