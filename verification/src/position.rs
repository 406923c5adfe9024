//! Between pointer positions, grid cells and the pixels that a cell covers.

use vstd::prelude::*;
use vstd::arithmetic::div_mod::{
    lemma_div_multiples_vanish_quotient,
    lemma_fundamental_div_mod,
    lemma_truncate_middle,
};
use crate::constants::BLOCK_SIZE;

verus! {

/// The number of whole blocks that lie before pixel `pixel` on an axis, with
/// 255 for every pixel beyond block 255.
pub open spec fn block_of(pixel: int) -> int {
    if pixel / (BLOCK_SIZE as int) <= 255 {
        pixel / (BLOCK_SIZE as int)
    } else {
        255
    }
}

/// The left edge of cell `index`, counted row by row, in a grid `width`
/// pixels wide.
pub open spec fn cell_x(index: int, width: int) -> int {
    (index * BLOCK_SIZE) % width
}

/// The top edge of cell `index`, counted row by row, in a grid `width`
/// pixels wide.
pub open spec fn cell_y(index: int, width: int) -> int {
    (index * BLOCK_SIZE / width) * BLOCK_SIZE
}

/// In a grid of `columns` cells a row, cell `index` starts at the pixels of
/// its column and of its row.
pub proof fn lemma_cell_origin(index: int, columns: int)
    requires
        0 <= index,
        0 < columns,
    ensures
        cell_x(index, columns * BLOCK_SIZE) == (index % columns) * BLOCK_SIZE,
        cell_y(index, columns * BLOCK_SIZE) == (index / columns) * BLOCK_SIZE,
{
    lemma_truncate_middle(index, 32, columns);
    lemma_div_multiples_vanish_quotient(32, index, columns);
    assert(index * 32 == 32 * index);
    assert(columns * 32 == 32 * columns);
}

/// A pointer anywhere on a cell is found on that cell again: in a grid of
/// `columns` cells a row, every pixel `(px, py)` of the square of cell `index`
/// lies in the column and in the row of `index`, and column and row give
/// `index` back. Columns and rows count up to 255.
pub proof fn lemma_cell_round_trip(index: int, columns: int, px: int, py: int)
    requires
        0 <= index,
        0 < columns <= 256,
        index / columns <= 255,
        cell_x(index, columns * BLOCK_SIZE) <= px < cell_x(index, columns * BLOCK_SIZE)
            + BLOCK_SIZE,
        cell_y(index, columns * BLOCK_SIZE) <= py < cell_y(index, columns * BLOCK_SIZE)
            + BLOCK_SIZE,
    ensures
        block_of(px) == index % columns,
        block_of(py) == index / columns,
        block_of(px) + block_of(py) * columns == index,
{
    lemma_cell_origin(index, columns);
    lemma_fundamental_div_mod(index, columns);
    assert(columns * (index / columns) == (index / columns) * columns) by (nonlinear_arith);
}

/// The column and the row of the block under the pointer, each capped at 255.
/// The position is that of the pointer in whole pixels.
pub fn get_event_pos(pos: (usize, usize)) -> (cell: (u8, u8))
    ensures
        cell.0 == block_of(pos.0 as int),
        cell.1 == block_of(pos.1 as int),
{
    let (x, y) = pos;
    let column = x / BLOCK_SIZE;
    let row = y / BLOCK_SIZE;
    (
        if column <= 255 {
            column as u8
        } else {
            255
        },
        if row <= 255 {
            row as u8
        } else {
            255
        },
    )
}

/// Something laid out in blocks, on which a pointer position names a block.
pub trait Positionable {
    /// The column and the row of the block under the pointer, each capped
    /// at 255.
    fn get_event_pos(&self, pos: (usize, usize)) -> (cell: (u8, u8))
        ensures
            cell.0 == block_of(pos.0 as int),
            cell.1 == block_of(pos.1 as int),
    {
        get_event_pos(pos)
    }
}

} // verus!
