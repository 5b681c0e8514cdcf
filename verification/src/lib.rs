//! Simulation engine for a falling-block puzzle game on a text-cell display.
//!
//! The crate holds the verified game logic: the piece catalog and 7-bag
//! randomizer, the board with collision testing, placement and row clearing,
//! the scoring and leveling policy, the session state machine, and the
//! gravity timer's control logic.  Rendering, keyboard input, the timer
//! thread and the score file live outside the library and talk to it
//! through plain values and the [`game::Effect`] queue.

pub mod consts;
pub mod minos;
pub mod timer;
pub mod game;
pub mod layout;
pub mod score;
