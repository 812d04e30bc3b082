//! Index mapping: from positions in the thread hierarchy and in a matrix to
//! linear offsets.

use vstd::prelude::*;
use vstd::arithmetic::div_mod::lemma_fundamental_div_mod;
use vstd::arithmetic::div_mod::lemma_fundamental_div_mod_converse;
use vstd::arithmetic::div_mod::lemma_mod_pos_bound;

verus! {

/// Linear offset of the cell `(row, col)` in a row-major buffer with `width`
/// cells per row.
pub open spec fn offset(row: int, col: int, width: int) -> int {
    row * width + col
}

/// Coordinate, along one axis of the grid, of thread `thread_idx` of block
/// `block_idx`, where each block has `block_dim` threads along that axis.
pub open spec fn global_coordinate(block_idx: int, block_dim: int, thread_idx: int) -> int {
    block_idx * block_dim + thread_idx
}

/// Row of the cell at linear offset `i`.
pub open spec fn row_of(i: int, width: int) -> int {
    i / width
}

/// Column of the cell at linear offset `i`.
pub open spec fn col_of(i: int, width: int) -> int {
    i % width
}

/// Linear offset of the cell `(row, col)` in a row-major buffer.
pub fn at(row: usize, col: usize, width: usize) -> (r: usize)
    requires
        offset(row as int, col as int, width as int) <= usize::MAX,
    ensures
        r == offset(row as int, col as int, width as int),
{
    row * width + col
}

/// Global coordinate of a thread along one axis.
pub fn global_index(block_idx: usize, block_dim: usize, thread_idx: usize) -> (r: usize)
    requires
        global_coordinate(block_idx as int, block_dim as int, thread_idx as int) <= usize::MAX,
    ensures
        r == global_coordinate(block_idx as int, block_dim as int, thread_idx as int),
{
    block_idx * block_dim + thread_idx
}

/// A cell inside a `height` by `width` matrix has its offset inside the
/// buffer of `height * width` cells.
pub proof fn lemma_offset_in_bounds(row: int, col: int, width: int, height: int)
    requires
        0 <= row < height,
        0 <= col < width,
    ensures
        0 <= offset(row, col, width) < height * width,
{
    assert(0 <= row * width && row * width + width <= height * width) by (nonlinear_arith)
        requires
            0 <= row < height,
            0 < width,
    ;
}

/// The offset of a cell determines the cell: its row is the quotient by the
/// width and its column the remainder.
pub proof fn lemma_offset_cell(row: int, col: int, width: int)
    requires
        0 <= col < width,
    ensures
        row_of(offset(row, col, width), width) == row,
        col_of(offset(row, col, width), width) == col,
{
    lemma_fundamental_div_mod_converse(offset(row, col, width), width, row, col);
}

/// Every offset is the offset of the cell that `row_of` and `col_of` name.
pub proof fn lemma_cell_offset(i: int, width: int)
    requires
        0 <= i,
        0 < width,
    ensures
        offset(row_of(i, width), col_of(i, width), width) == i,
        0 <= col_of(i, width) < width,
        0 <= row_of(i, width),
        row_of(i, width) <= i,
{
    lemma_fundamental_div_mod(i, width);
    lemma_mod_pos_bound(i, width);
    let q = i / width;
    let r = i % width;
    assert(width * q == q * width) by (nonlinear_arith);
    assert(0 <= q <= i) by (nonlinear_arith)
        requires
            i == q * width + r,
            0 <= r < width,
            0 <= i,
            0 < width,
    ;
}

/// Two cells of one matrix with the same offset are the same cell, so no two
/// threads that own different cells ever write the same location.
pub proof fn lemma_offset_injective(row1: int, col1: int, row2: int, col2: int, width: int)
    requires
        0 <= col1 < width,
        0 <= col2 < width,
        offset(row1, col1, width) == offset(row2, col2, width),
    ensures
        row1 == row2,
        col1 == col2,
{
    lemma_offset_cell(row1, col1, width);
    lemma_offset_cell(row2, col2, width);
}

/// An offset below `height * width` lies in a row below `height`.
pub proof fn lemma_row_in_bounds(i: int, width: int, height: int)
    requires
        0 <= i < height * width,
        0 < width,
    ensures
        0 <= row_of(i, width) < height,
{
    lemma_cell_offset(i, width);
    let q = row_of(i, width);
    let r = col_of(i, width);
    assert(q < height) by (nonlinear_arith)
        requires
            q * width + r < height * width,
            0 <= r,
            0 < width,
    ;
}

} // verus!
