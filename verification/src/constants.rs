//! Sizes, colours and the three palettes.

use vstd::prelude::*;

verus! {

/// Edge length of one tile, in pixels.
pub const TILE_SIZE: usize = 8;

/// Number of tiles along one edge of a block.
pub const TILES_IN_ROW: usize = 4;

/// Edge length of one block, in pixels.
pub const BLOCK_SIZE: usize = TILE_SIZE * TILES_IN_ROW;

/// One colour: red, green, blue.
pub type RgbTriple = (u8, u8, u8);

/// The colour held by the first three bytes of `chunks`.
pub fn rgb_triple_from(chunks: &[u8]) -> (triple: RgbTriple)
    requires
        chunks@.len() >= 3,
    ensures
        triple == (chunks@[0], chunks@[1], chunks@[2]),
{
    (chunks[0], chunks[1], chunks[2])
}

/// Four colours in a fixed order: darkest first by convention.
#[derive(Debug, Eq, PartialEq, Copy, Clone)]
pub struct RgbPalette(pub RgbTriple, pub RgbTriple, pub RgbTriple, pub RgbTriple);

/// The palette in which tiles and blocks are stored.
pub open spec fn spec_base_palette() -> RgbPalette {
    RgbPalette((0, 0, 0), (85, 85, 85), (170, 170, 170), (255, 255, 255))
}

/// The palette that marks the block under the pointer.
pub open spec fn spec_hover_palette() -> RgbPalette {
    RgbPalette((0, 20, 40), (13, 73, 80), (46, 138, 106), (253, 244, 152))
}

/// The palette that marks the selected block.
pub open spec fn spec_select_palette() -> RgbPalette {
    RgbPalette((40, 0, 20), (243, 84, 57), (246, 141, 92), (244, 210, 122))
}

/// The palette in which tiles and blocks are stored.
#[verifier::when_used_as_spec(spec_base_palette)]
pub fn base_palette() -> (palette: RgbPalette)
    ensures
        palette == spec_base_palette(),
{
    RgbPalette((0, 0, 0), (85, 85, 85), (170, 170, 170), (255, 255, 255))
}

/// The palette that marks the block under the pointer.
#[verifier::when_used_as_spec(spec_hover_palette)]
pub fn hover_palette() -> (palette: RgbPalette)
    ensures
        palette == spec_hover_palette(),
{
    RgbPalette((0, 20, 40), (13, 73, 80), (46, 138, 106), (253, 244, 152))
}

/// The palette that marks the selected block.
#[verifier::when_used_as_spec(spec_select_palette)]
pub fn select_palette() -> (palette: RgbPalette)
    ensures
        palette == spec_select_palette(),
{
    RgbPalette((40, 0, 20), (243, 84, 57), (246, 141, 92), (244, 210, 122))
}

} // verus!
