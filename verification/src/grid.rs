//! Pure coordinate arithmetic on a toroidal square grid.
//!
//! A grid of width `w` has `w * w` cells, numbered row-major from `0`.
//! Moving off an edge wraps to the opposite edge of the same row or column.

use vstd::prelude::*;

verus! {

use vstd::arithmetic::div_mod::{
    lemma_fundamental_div_mod, lemma_fundamental_div_mod_converse,
    lemma_mod_division_less_than_divisor, lemma_div_pos_is_pos, lemma_multiply_divide_lt,
};
use vstd::arithmetic::mul::lemma_mul_inequality;

/// One of the four directions the snake can move in.
#[derive(Clone, Copy, PartialEq, Eq, Structural, Debug)]
pub enum Direction {
    Up,
    Right,
    Down,
    Left,
}

/// The direction that undoes a move in `d`.
pub open spec fn opposite(d: Direction) -> Direction {
    match d {
        Direction::Up => Direction::Down,
        Direction::Down => Direction::Up,
        Direction::Left => Direction::Right,
        Direction::Right => Direction::Left,
    }
}

/// The cell reached from `i` by one move in direction `d` on a toroidal
/// grid of width `width`, as a mathematical map over row and column.
pub open spec fn next_index_spec(i: int, width: int, d: Direction) -> int
    recommends
        1 <= width,
        0 <= i < width * width,
{
    let row = i / width;
    let col = i % width;
    match d {
        Direction::Right => if col == width - 1 { row * width } else { i + 1 },
        Direction::Left => if col == 0 { row * width + (width - 1) } else { i - 1 },
        Direction::Up => if row == 0 { (width - 1) * width + col } else { i - width },
        Direction::Down => if row == width - 1 { col } else { i + width },
    }
}

/// A row/column pair below `width` names a cell below `width * width`, and
/// division and remainder by the width recover the pair.
proof fn lemma_cell_from_row_col(r: int, c: int, width: int)
    requires
        1 <= width,
        0 <= r < width,
        0 <= c < width,
    ensures
        0 <= r * width + c < width * width,
        (r * width + c) / width == r,
        (r * width + c) % width == c,
{
    assert(r * width + width == (r + 1) * width) by (nonlinear_arith);
    lemma_mul_inequality(r + 1, width, width);
    assert(r * width >= 0) by (nonlinear_arith)
        requires 0 <= r && 0 < width;
    lemma_fundamental_div_mod_converse(r * width + c, width, r, c);
}

/// Splitting a cell index into its row and column.
proof fn lemma_row_col(i: int, width: int)
    requires
        1 <= width,
        0 <= i < width * width,
    ensures
        i == (i / width) * width + (i % width),
        0 <= i % width < width,
        0 <= i / width < width,
{
    lemma_fundamental_div_mod(i, width);
    lemma_mod_division_less_than_divisor(i, width);
    lemma_div_pos_is_pos(i, width);
    lemma_multiply_divide_lt(i, width, width);
    assert(width * (i / width) == (i / width) * width) by (nonlinear_arith);
}

/// One move changes the row and column of a cell exactly as the torus
/// demands: a horizontal move keeps the row and steps the column by one
/// with wrap-around, a vertical move keeps the column and steps the row.
pub proof fn lemma_next_row_col(i: int, width: int, d: Direction)
    requires
        1 <= width,
        0 <= i < width * width,
    ensures
        0 <= next_index_spec(i, width, d) < width * width,
        d == Direction::Right ==> next_index_spec(i, width, d) / width == i / width
            && next_index_spec(i, width, d) % width
                == (if i % width == width - 1 { 0int } else { i % width + 1 }),
        d == Direction::Left ==> next_index_spec(i, width, d) / width == i / width
            && next_index_spec(i, width, d) % width
                == (if i % width == 0 { width - 1 } else { i % width - 1 }),
        d == Direction::Up ==> next_index_spec(i, width, d) % width == i % width
            && next_index_spec(i, width, d) / width
                == (if i / width == 0 { width - 1 } else { i / width - 1 }),
        d == Direction::Down ==> next_index_spec(i, width, d) % width == i % width
            && next_index_spec(i, width, d) / width
                == (if i / width == width - 1 { 0int } else { i / width + 1 }),
{
    let row = i / width;
    let col = i % width;
    lemma_row_col(i, width);
    match d {
        Direction::Right => {
            if col == width - 1 {
                lemma_cell_from_row_col(row, 0, width);
            } else {
                lemma_cell_from_row_col(row, col + 1, width);
            }
        }
        Direction::Left => {
            if col == 0 {
                lemma_cell_from_row_col(row, width - 1, width);
            } else {
                lemma_cell_from_row_col(row, col - 1, width);
            }
        }
        Direction::Up => {
            if row == 0 {
                lemma_cell_from_row_col(width - 1, col, width);
            } else {
                assert((row - 1) * width == row * width - width) by (nonlinear_arith);
                lemma_cell_from_row_col(row - 1, col, width);
            }
        }
        Direction::Down => {
            if row == width - 1 {
                lemma_cell_from_row_col(0, col, width);
            } else {
                assert((row + 1) * width == row * width + width) by (nonlinear_arith);
                lemma_cell_from_row_col(row + 1, col, width);
            }
        }
    }
}

/// Every move lands on a cell of the grid.
pub proof fn lemma_next_index_in_range(i: int, width: int, d: Direction)
    requires
        1 <= width,
        0 <= i < width * width,
    ensures
        0 <= next_index_spec(i, width, d) < width * width,
{
    lemma_next_row_col(i, width, d);
}

/// Wrap correctness: one move in `d` followed by one move in the opposite
/// direction returns to the starting cell, for every cell of the grid.
pub proof fn lemma_wrap_inverse(i: int, width: int, d: Direction)
    requires
        1 <= width,
        0 <= i < width * width,
    ensures
        next_index_spec(next_index_spec(i, width, d), width, opposite(d)) == i,
{
    let n1 = next_index_spec(i, width, d);
    let n2 = next_index_spec(n1, width, opposite(d));
    lemma_next_row_col(i, width, d);
    lemma_next_row_col(n1, width, opposite(d));
    lemma_row_col(i, width);
    lemma_row_col(n2, width);
    assert(n2 / width == i / width && n2 % width == i % width);
}

/// Row and column preservation: a horizontal move keeps the row
/// `i / width`, and a vertical move keeps the column `i % width`.
pub proof fn lemma_row_col_preserved(i: int, width: int, d: Direction)
    requires
        1 <= width,
        0 <= i < width * width,
    ensures
        d == Direction::Left || d == Direction::Right
            ==> next_index_spec(i, width, d) / width == i / width,
        d == Direction::Up || d == Direction::Down
            ==> next_index_spec(i, width, d) % width == i % width,
{
    lemma_next_row_col(i, width, d);
}

/// The cell reached from `head` by one move in `direction`, wrapping at the
/// grid edges. Division is used once, to find the row; each branch then
/// tests a single precomputed boundary.
pub fn next_index(head: usize, width: usize, size: usize, direction: Direction) -> (r: usize)
    requires
        1 <= width,
        size == width * width,
        head < size,
        size + width <= usize::MAX,
    ensures
        r as int == next_index_spec(head as int, width as int, direction),
        r < size,
{
    proof {
        lemma_row_col(head as int, width as int);
        lemma_next_index_in_range(head as int, width as int, direction);
    }
    let ghost i = head as int;
    let ghost w = width as int;
    let ghost row_g = i / w;
    let ghost col_g = i % w;
    let row = head / width;
    match direction {
        Direction::Right => {
            proof {
                assert((row_g + 1) * w == row_g * w + w) by (nonlinear_arith);
                lemma_mul_inequality(row_g + 1, w, w);
            }
            let threshold = (row + 1) * width;
            if head + 1 == threshold {
                threshold - width
            } else {
                head + 1
            }
        }
        Direction::Left => {
            proof {
                assert((row_g + 1) * w == row_g * w + w) by (nonlinear_arith);
                lemma_mul_inequality(row_g + 1, w, w);
            }
            let threshold = row * width;
            if head == threshold {
                threshold + (width - 1)
            } else {
                head - 1
            }
        }
        Direction::Up => {
            let threshold = head - row * width;
            proof {
                assert(row_g >= 1 && w >= 1 ==> row_g * w >= w) by (nonlinear_arith);
                assert((w - 1) * w == w * w - w) by (nonlinear_arith);
            }
            if head == threshold {
                (size - width) + threshold
            } else {
                proof {
                    assert(row_g * w != 0);
                    assert(row_g >= 1);
                    assert(head >= width);
                }
                head - width
            }
        }
        Direction::Down => {
            proof {
                assert((w - row_g) * w == w * w - row_g * w) by (nonlinear_arith);
                assert((row_g + 1) * w == row_g * w + w) by (nonlinear_arith);
                lemma_mul_inequality(row_g + 1, w, w);
                assert(0 <= row_g && row_g < w - 1 && 1 <= w ==> (w - row_g) * w >= 2 * w)
                    by (nonlinear_arith);
            }
            let threshold = head + (width - row) * width;
            if head + width == threshold {
                threshold - (row + 1) * width
            } else {
                head + width
            }
        }
    }
}

} // verus!
