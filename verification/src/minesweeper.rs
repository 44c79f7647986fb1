//! Counting the mines around the squares of a minesweeper board.

use crate::text::{digit, digit_char};
use vstd::prelude::*;
use vstd::string::{StrSliceExecFns, StringSliceAdditionalSpecFns};

verus! {

/// The width of the board: the length in bytes of its first row.
pub open spec fn width(minefield: Seq<&str>) -> nat {
    if minefield.len() == 0 {
        0
    } else {
        minefield[0].spec_bytes().len()
    }
}

/// Whether the square in row `i` and column `j` is on the board and holds a
/// mine. A row that is shorter than the board is wide has no mines beyond
/// its end.
pub open spec fn mine(minefield: Seq<&str>, i: int, j: int) -> bool {
    &&& 0 <= i < minefield.len()
    &&& 0 <= j < width(minefield)
    &&& j < minefield[i]@.len()
    &&& minefield[i]@[j] == '*'
}

pub open spec fn one_if(b: bool) -> nat {
    if b {
        1
    } else {
        0
    }
}

/// The number of mines on the eight squares around a square.
pub open spec fn mines_around(minefield: Seq<&str>, i: int, j: int) -> nat {
    one_if(mine(minefield, i - 1, j - 1)) + one_if(mine(minefield, i - 1, j)) + one_if(
        mine(minefield, i - 1, j + 1),
    ) + one_if(mine(minefield, i, j - 1)) + one_if(mine(minefield, i, j + 1)) + one_if(
        mine(minefield, i + 1, j - 1),
    ) + one_if(mine(minefield, i + 1, j)) + one_if(mine(minefield, i + 1, j + 1))
}

/// What the annotated board shows on a square: a mine, nothing where no
/// mine is near, or the number of the mines around it.
pub open spec fn square(minefield: Seq<&str>, i: int, j: int) -> char {
    if mine(minefield, i, j) {
        '*'
    } else if mines_around(minefield, i, j) == 0 {
        ' '
    } else {
        digit_char(mines_around(minefield, i, j))
    }
}

pub const BOMB: i32 = -1;

/// Whether `num_field` records the mines of `minefield`.
spec fn records(num_field: Seq<Vec<i32>>, minefield: Seq<&str>) -> bool {
    &&& num_field.len() == minefield.len()
    &&& forall|i: int|
        0 <= i < num_field.len() ==> (#[trigger] num_field[i])@.len() == width(minefield)
    &&& forall|i: int, j: int|
        0 <= i < num_field.len() && 0 <= j < width(minefield) ==> ((#[trigger] num_field[i]@[j])
            == BOMB <==> mine(minefield, i, j))
}

/// Whether `num_field` records a mine on the square in row `i` and column
/// `j`.
fn bomb_at(num_field: &Vec<Vec<i32>>, i: usize, j: usize, Ghost(minefield): Ghost<Seq<&str>>) -> (b:
    bool)
    requires
        records(num_field@, minefield),
        i < minefield.len(),
        j < width(minefield),
    ensures
        b == mine(minefield, i as int, j as int),
{
    num_field[i][j] == BOMB
}

/// The number of mines that `num_field` records around a square.
fn count_around(
    num_field: &Vec<Vec<i32>>,
    rows: usize,
    cols: usize,
    i: usize,
    j: usize,
    Ghost(minefield): Ghost<Seq<&str>>,
) -> (c: u8)
    requires
        records(num_field@, minefield),
        rows == minefield.len(),
        cols == width(minefield),
        i < rows,
        j < cols,
    ensures
        c == mines_around(minefield, i as int, j as int),
{
    let mut c: u8 = 0;
    // top left
    if i >= 1 && j >= 1 && bomb_at(num_field, i - 1, j - 1, Ghost(minefield)) {
        c += 1;
    }
    // top center

    if i >= 1 && bomb_at(num_field, i - 1, j, Ghost(minefield)) {
        c += 1;
    }
    // top right

    if i >= 1 && j < cols - 1 && bomb_at(num_field, i - 1, j + 1, Ghost(minefield)) {
        c += 1;
    }
    // middle left

    if j >= 1 && bomb_at(num_field, i, j - 1, Ghost(minefield)) {
        c += 1;
    }
    // middle right

    if j < cols - 1 && bomb_at(num_field, i, j + 1, Ghost(minefield)) {
        c += 1;
    }
    // bottom left

    if i < rows - 1 && j >= 1 && bomb_at(num_field, i + 1, j - 1, Ghost(minefield)) {
        c += 1;
    }
    // bottom center

    if i < rows - 1 && bomb_at(num_field, i + 1, j, Ghost(minefield)) {
        c += 1;
    }
    // bottom right

    if i < rows - 1 && j < cols - 1 && bomb_at(num_field, i + 1, j + 1, Ghost(minefield)) {
        c += 1;
    }
    c
}

/// The board with a count of the neighbouring mines on each square.
pub fn annotate(minefield: &[&str]) -> (result: Vec<String>)
    ensures
        result@.len() == minefield@.len(),
        forall|i: int|
            0 <= i < result@.len() ==> (#[trigger] result@[i])@.len() == width(minefield@),
        forall|i: int, j: int|
            0 <= i < result@.len() && 0 <= j < width(minefield@) ==> (#[trigger] result@[i]@[j])
                == square(minefield@, i, j),
{
    let rows = minefield.len();
    if rows == 0 {
        return Vec::new();
    }
    let cols = minefield[0].as_bytes().len();

    let mut num_field: Vec<Vec<i32>> = Vec::with_capacity(rows);
    for i in 0..rows
        invariant
            rows == minefield@.len(),
            cols == width(minefield@),
            num_field@.len() == i,
            forall|k: int| 0 <= k < i ==> (#[trigger] num_field@[k])@.len() == cols,
            forall|k: int, j: int|
                0 <= k < i && 0 <= j < cols ==> ((#[trigger] num_field@[k]@[j]) == BOMB <==> mine(
                    minefield@,
                    k,
                    j,
                )),
    {
        let line = minefield[i];
        let len = line.unicode_len();
        let mut row: Vec<i32> = Vec::with_capacity(cols);
        for j in 0..cols
            invariant
                rows == minefield@.len(),
                cols == width(minefield@),
                i < rows,
                line == minefield@[i as int],
                len == line@.len(),
                row@.len() == j,
                forall|k: int|
                    0 <= k < j ==> ((#[trigger] row@[k]) == BOMB <==> mine(minefield@, i as int, k)),
        {
            if j < len && line.get_char(j) == '*' {
                row.push(BOMB);
            } else {
                row.push(0);
            }
        }
        num_field.push(row);
    }
    assert(records(num_field@, minefield@));

    let mut result: Vec<String> = Vec::with_capacity(rows);
    for i in 0..rows
        invariant
            rows == minefield@.len(),
            cols == width(minefield@),
            records(num_field@, minefield@),
            result@.len() == i,
            forall|k: int| 0 <= k < i ==> (#[trigger] result@[k])@.len() == cols,
            forall|k: int, j: int|
                0 <= k < i && 0 <= j < cols ==> (#[trigger] result@[k]@[j]) == square(
                    minefield@,
                    k,
                    j,
                ),
    {
        let mut row = String::new();
        for j in 0..cols
            invariant
                rows == minefield@.len(),
                cols == width(minefield@),
                i < rows,
                records(num_field@, minefield@),
                row@.len() == j,
                forall|k: int| 0 <= k < j ==> (#[trigger] row@[k]) == square(
                    minefield@,
                    i as int,
                    k,
                ),
        {
            if bomb_at(&num_field, i, j, Ghost(minefield@)) {
                row.push('*');
            } else {
                let n = count_around(&num_field, rows, cols, i, j, Ghost(minefield@));
                if n == 0 {
                    row.push(' ');
                } else {
                    row.push(digit(n));
                }
            }
        }
        result.push(row);
    }
    result
}

} // verus!
