//! Shared type aliases and constants of the game rules.

use vstd::prelude::*;

verus! {

/// One rotation state of a piece: a square 0/1 matrix; 1 marks an occupied
/// sub-cell.  A sub-cell is two display columns wide and one row tall.
pub type Rotation = Vec<Vec<u8>>;

/// A board-relative position in display units: `.0` is the column (two per
/// logical cell), `.1` the row.
pub type BoardXY = (i16, i16);

/// Logical width of the play field, in cells.
pub const GAME_BOARD_WIDTH: usize = 10;

/// Height of the play field, in rows.
pub const GAME_BOARD_HEIGHT: usize = 20;

/// How many piece types exist.
pub const MINO_TYPES: u8 = 7;

/// Cell / piece-type id of the J piece.
pub const J_BLOCK: u8 = 1;

/// Cell / piece-type id of the Z piece.
pub const Z_BLOCK: u8 = 2;

/// Cell / piece-type id of the O piece.
pub const O_BLOCK: u8 = 3;

/// Cell / piece-type id of the S piece.
pub const S_BLOCK: u8 = 4;

/// Cell / piece-type id of the T piece.
pub const T_BLOCK: u8 = 5;

/// Cell / piece-type id of the L piece.
pub const L_BLOCK: u8 = 6;

/// Cell / piece-type id of the I piece.
pub const I_BLOCK: u8 = 7;

/// Rotation direction: counter-clockwise.
pub const ROT_LEFT: u8 = 0;

/// Rotation direction: clockwise.
pub const ROT_RIGHT: u8 = 1;

} // verus!
