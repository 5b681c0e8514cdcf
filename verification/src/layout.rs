//! Geometry helper for the renderer's tiled background.

use vstd::prelude::*;

verus! {

/// The width (or height) of the background tile that starts at
/// `tile_start` inside a strip of `total_size` cells: the full
/// `max_tile_size` where it fits, the remaining space otherwise.
pub fn calc_tile_size(tile_start: u16, total_size: u16, max_tile_size: u16) -> (size: u16)
    ensures
        size == vstd::math::min(
            max_tile_size as int,
            if total_size >= tile_start {
                total_size - tile_start
            } else {
                0int
            },
        ),
{
    let remaining_size: u16 = if total_size >= tile_start {
        total_size - tile_start
    } else {
        0
    };
    if max_tile_size <= remaining_size {
        max_tile_size
    } else {
        remaining_size
    }
}

} // verus!
