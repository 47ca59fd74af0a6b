//! Ordered dithering against square threshold tiles: one tile per animation
//! frame, repeated over the whole picture.
use vstd::prelude::*;
use crate::geometry::{wrap, wrap_spec};

verus! {

/// Side of a threshold tile, in pixels.
pub const TILE_SIDE: u32 = 16;

/// Number of thresholds in a tile.
pub const TILE_CELLS: usize = 256;

/// Number of tiles in an animation.
pub const FRAMES: usize = 16;

/// Position in its tile of the threshold for pixel (`x`, `y`): the tile
/// repeats every `TILE_SIDE` pixels along both axes.
pub open spec fn tile_index_spec(x: int, y: int) -> int {
    wrap_spec(x, TILE_SIDE as int) + TILE_SIDE * wrap_spec(y, TILE_SIDE as int)
}

/// A pixel is lit if it is not black and at least as bright as its threshold.
pub open spec fn is_lit_spec(luma: u8, threshold: u8) -> bool {
    luma != 0 && luma >= threshold
}

/// The frame that follows `frame`, the first one after the last.
pub open spec fn next_frame_spec(frame: int) -> int {
    (frame + 1) % (FRAMES as int)
}

/// Position in its tile of the threshold for pixel (`x`, `y`).
pub fn tile_index(x: i32, y: i32) -> (index: usize)
    ensures
        index == tile_index_spec(x as int, y as int),
        index < TILE_CELLS,
{
    let column: u32 = wrap(x as i64, TILE_SIDE);
    let row: u32 = wrap(y as i64, TILE_SIDE);
    (column + TILE_SIDE * row) as usize
}

/// Whether a pixel of brightness `luma` is lit against `threshold`.
pub fn is_lit(luma: u8, threshold: u8) -> (lit: bool)
    ensures
        lit == is_lit_spec(luma, threshold),
{
    !(luma == 0 || luma < threshold)
}

/// Whether pixel (`x`, `y`) of brightness `luma` is lit in the frame whose
/// thresholds are `tile`.
pub fn dither_pixel(tile: &[u8; 256], x: i32, y: i32, luma: u8) -> (lit: bool)
    ensures
        lit == is_lit_spec(luma, tile@[tile_index_spec(x as int, y as int)]),
{
    let index: usize = tile_index(x, y);
    is_lit(luma, tile[index])
}

/// The frame that follows `frame`.
pub fn next_frame(frame: usize) -> (next: usize)
    ensures
        next == next_frame_spec(frame as int),
        next < FRAMES,
{
    let within: usize = frame % FRAMES;
    proof {
        vstd::arithmetic::div_mod::lemma_add_mod_noop(frame as int, 1, FRAMES as int);
    }
    (within + 1) % FRAMES
}

} // verus!
