//! Conway's game of life on a board with fixed edges.

use vstd::prelude::*;
use vstd::string::StrSliceExecFns;

verus! {

/// A square of the board.
#[derive(Copy, Clone, Eq, PartialEq, Structural, Debug)]
pub enum Cell {
    Dead,
    Alive,
}

/// A board of cells.
pub struct Life {
    world: Vec<Vec<Cell>>,
    width: usize,
    height: usize,
}

/// A line of the text form of a board that holds something else than `.`
/// and `*`.
#[derive(Copy, Clone, Eq, PartialEq, Structural, Debug)]
pub struct BadLine {
    /// The number of the line, the first being 0.
    pub line: usize,
}

/// The cell that a character of the text form stands for.
pub open spec fn cell_of(ch: char) -> Option<Cell> {
    if ch == '.' {
        Some(Cell::Dead)
    } else if ch == '*' {
        Some(Cell::Alive)
    } else {
        None
    }
}

/// Whether every character of a line stands for a cell.
pub open spec fn line_is_cells(line: Seq<char>) -> bool {
    forall|j: int| 0 <= j < line.len() ==> cell_of(#[trigger] line[j]) is Some
}

pub open spec fn one_if(b: bool) -> nat {
    if b {
        1
    } else {
        0
    }
}

/// Whether the board `world` has a living cell in column `x` of row `y`.
/// Outside the board nothing lives.
pub open spec fn alive(world: Seq<Seq<Cell>>, x: int, y: int) -> bool {
    0 <= y < world.len() && 0 <= x < world[y].len() && world[y][x] == Cell::Alive
}

/// The number of living cells among the eight around a cell.
pub open spec fn alive_neighbors(world: Seq<Seq<Cell>>, x: int, y: int) -> nat {
    one_if(alive(world, x - 1, y - 1)) + one_if(alive(world, x, y - 1)) + one_if(
        alive(world, x + 1, y - 1),
    ) + one_if(alive(world, x - 1, y)) + one_if(alive(world, x + 1, y)) + one_if(
        alive(world, x - 1, y + 1),
    ) + one_if(alive(world, x, y + 1)) + one_if(alive(world, x + 1, y + 1))
}

/// The cell of the next generation: a dead cell with three living
/// neighbours comes to life; a living cell with one, or with four or more,
/// dies; every other cell stays as it is.
pub open spec fn next_cell(world: Seq<Seq<Cell>>, x: int, y: int) -> Cell {
    let n = alive_neighbors(world, x, y);
    match world[y][x] {
        Cell::Dead => if n == 3 {
            Cell::Alive
        } else {
            Cell::Dead
        },
        Cell::Alive => if n == 1 || (4 <= n && n <= 8) {
            Cell::Dead
        } else {
            Cell::Alive
        },
    }
}

impl Life {
    /// The rows of the board, from the top.
    pub closed spec fn rows(&self) -> Seq<Seq<Cell>> {
        Seq::new(self.world@.len(), |y: int| self.world@[y]@)
    }

    /// The number of columns of the board.
    pub closed spec fn spec_width(&self) -> nat {
        self.width as nat
    }

    /// Whether the board is a rectangle with at least one row.
    pub closed spec fn wf(&self) -> bool {
        &&& self.height == self.world@.len()
        &&& self.height > 0
        &&& forall|y: int| 0 <= y < self.world@.len() ==> (#[trigger] self.world@[y])@.len() == self.width
    }

    /// Reads a board from the lines of its text form, where `.` is a dead
    /// cell and `*` a living one. The first line gives the width.
    pub fn load(lines: &[&str]) -> (result: Result<Life, BadLine>)
        requires
            lines@.len() > 0,
        ensures
            match result {
                Ok(life) => {
                    &&& forall|i: int| 0 <= i < lines@.len() ==> line_is_cells(#[trigger] lines@[i]@)
                    &&& life.rows().len() == lines@.len()
                    &&& life.spec_width() == lines@[0]@.len()
                    &&& forall|i: int|
                        0 <= i < lines@.len() ==> (#[trigger] life.rows()[i]).len() == lines@[i]@.len()
                    &&& forall|i: int, j: int|
                        0 <= i < lines@.len() && 0 <= j < lines@[i]@.len() ==> Some(
                            #[trigger] life.rows()[i][j],
                        ) == cell_of(lines@[i]@[j])
                    &&& life.wf() <==> forall|i: int|
                        0 <= i < lines@.len() ==> (#[trigger] lines@[i])@.len() == lines@[0]@.len()
                },
                Err(bad) => {
                    &&& bad.line < lines@.len()
                    &&& !line_is_cells(lines@[bad.line as int]@)
                    &&& forall|i: int| 0 <= i < bad.line ==> line_is_cells(#[trigger] lines@[i]@)
                },
            },
    {
        let mut world: Vec<Vec<Cell>> = Vec::new();
        for i in 0..lines.len()
            invariant
                world@.len() == i,
                forall|k: int| 0 <= k < i ==> line_is_cells(#[trigger] lines@[k]@),
                forall|k: int| 0 <= k < i ==> (#[trigger] world@[k])@.len() == lines@[k]@.len(),
                forall|k: int, j: int|
                    0 <= k < i && 0 <= j < lines@[k]@.len() ==> Some(#[trigger] world@[k]@[j])
                        == cell_of(lines@[k]@[j]),
        {
            let line = lines[i];
            let len = line.unicode_len();
            let mut row: Vec<Cell> = Vec::new();
            for j in 0..len
                invariant
                    line == lines@[i as int],
                    len == line@.len(),
                    i < lines@.len(),
                    row@.len() == j,
                    forall|k: int| 0 <= k < i ==> line_is_cells(#[trigger] lines@[k]@),
                    forall|k: int| 0 <= k < j ==> Some(#[trigger] row@[k]) == cell_of(line@[k]),
            {
                let ch = line.get_char(j);
                let cell = if ch == '.' {
                    Cell::Dead
                } else if ch == '*' {
                    Cell::Alive
                } else {
                    assert(cell_of(line@[j as int]) is None);
                    assert(!line_is_cells(line@));
                    return Err(BadLine { line: i });
                };
                row.push(cell);
            }
            assert(line_is_cells(line@)) by {
                assert forall|j: int| 0 <= j < line@.len() implies cell_of(
                    #[trigger] line@[j],
                ) is Some by {
                    assert(Some(row@[j]) == cell_of(line@[j]));
                }
            }
            world.push(row);
        }
        let width = world[0].len();
        let height = world.len();
        let life = Life { world, width, height };
        proof {
            assert forall|i: int| 0 <= i < lines@.len() implies (#[trigger] life.rows()[i]).len()
                == lines@[i]@.len() by {
                assert(life.rows()[i] == life.world@[i]@);
            }
            assert forall|i: int, j: int|
                0 <= i < lines@.len() && 0 <= j < lines@[i]@.len() implies Some(
                #[trigger] life.rows()[i][j],
            ) == cell_of(lines@[i]@[j]) by {
                assert(life.rows()[i] == life.world@[i]@);
            }
            let same = forall|i: int|
                0 <= i < lines@.len() ==> (#[trigger] lines@[i])@.len() == lines@[0]@.len();
            if same {
                assert forall|y: int| 0 <= y < life.world@.len() implies (
                #[trigger] life.world@[y])@.len() == life.width by {
                    assert(lines@[y]@.len() == lines@[0]@.len());
                }
            }
            if life.wf() {
                assert forall|i: int| 0 <= i < lines@.len() implies (#[trigger] lines@[i])@.len()
                    == lines@[0]@.len() by {
                    assert(life.world@[i]@.len() == life.width);
                }
            }
        }
        Ok(life)
    }

    /// Replaces the board by its next generation.
    pub fn update(&mut self)
        requires
            old(self).wf(),
        ensures
            final(self).wf(),
            final(self).spec_width() == old(self).spec_width(),
            final(self).rows().len() == old(self).rows().len(),
            forall|x: int, y: int|
                0 <= y < old(self).rows().len() && 0 <= x < old(self).spec_width() ==> (
                #[trigger] final(self).rows()[y][x]) == next_cell(old(self).rows(), x, y),
    {
        let mut new_world: Vec<Vec<Cell>> = Vec::new();
        for y in 0..self.height
            invariant
                *self == *old(self),
                self.wf(),
                new_world@.len() == y,
                forall|k: int| 0 <= k < y ==> (#[trigger] new_world@[k])@.len() == self.width,
                forall|k: int, x: int|
                    0 <= k < y && 0 <= x < self.width ==> (#[trigger] new_world@[k]@[x])
                        == next_cell(self.rows(), x, k),
        {
            let mut row: Vec<Cell> = Vec::new();
            for x in 0..self.width
                invariant
                    *self == *old(self),
                    self.wf(),
                    y < self.height,
                    row@.len() == x,
                    forall|k: int| 0 <= k < x ==> (#[trigger] row@[k]) == next_cell(
                        self.rows(),
                        k,
                        y as int,
                    ),
            {
                let n = self.num_of_alive_neighbor(x, y);
                let cell = match self.get(x, y) {
                    Cell::Dead => if n == 3 {
                        Cell::Alive
                    } else {
                        Cell::Dead
                    },
                    Cell::Alive => if n == 1 || (4 <= n && n <= 8) {
                        Cell::Dead
                    } else {
                        Cell::Alive
                    },
                };
                row.push(cell);
            }
            new_world.push(row);
        }
        self.world = new_world;
        proof {
            assert forall|x: int, y: int|
                0 <= y < old(self).rows().len() && 0 <= x < old(self).spec_width() implies (
            #[trigger] self.rows()[y][x]) == next_cell(old(self).rows(), x, y) by {
                assert(self.rows()[y] == self.world@[y]@);
            }
        }
    }

    /// The cell in column `x` of row `y`.
    pub fn get(&self, x: usize, y: usize) -> (cell: Cell)
        requires
            self.wf(),
            x < self.spec_width(),
            y < self.rows().len(),
        ensures
            cell == self.rows()[y as int][x as int],
    {
        self.world[y][x]
    }

    fn lives(&self, x: usize, y: usize) -> (b: bool)
        requires
            self.wf(),
            x < self.spec_width(),
            y < self.rows().len(),
        ensures
            b == alive(self.rows(), x as int, y as int),
    {
        self.get(x, y) == Cell::Alive
    }

    /// The number of living cells among the eight around a cell.
    pub fn num_of_alive_neighbor(&self, x: usize, y: usize) -> (n: usize)
        requires
            self.wf(),
            x < self.spec_width(),
            y < self.rows().len(),
        ensures
            n == alive_neighbors(self.rows(), x as int, y as int),
    {
        let mut n: usize = 0;

        // top-left
        if 0 < x && 0 < y && self.lives(x - 1, y - 1) {
            n += 1;
        }
        // top-center

        if 0 < y && self.lives(x, y - 1) {
            n += 1;
        }
        // top-right

        if x + 1 < self.width && 0 < y && self.lives(x + 1, y - 1) {
            n += 1;
        }
        // middle-left

        if 0 < x && self.lives(x - 1, y) {
            n += 1;
        }
        // middle-right

        if x + 1 < self.width && self.lives(x + 1, y) {
            n += 1;
        }
        // bottom-left

        if 0 < x && y + 1 < self.height && self.lives(x - 1, y + 1) {
            n += 1;
        }
        // bottom-center

        if y + 1 < self.height && self.lives(x, y + 1) {
            n += 1;
        }
        // bottom-right

        if x + 1 < self.width && y + 1 < self.height && self.lives(x + 1, y + 1) {
            n += 1;
        }
        n
    }

    /// The text form of the board: a line for each row, `*` for a living
    /// cell and `.` for a dead one.
    pub fn render(&self) -> (text: Vec<String>)
        requires
            self.wf(),
        ensures
            text@.len() == self.rows().len(),
            forall|y: int| 0 <= y < text@.len() ==> (#[trigger] text@[y])@.len() == self.spec_width(),
            forall|x: int, y: int|
                0 <= y < text@.len() && 0 <= x < self.spec_width() ==> cell_of(
                    #[trigger] text@[y]@[x],
                ) == Some(self.rows()[y][x]),
    {
        let mut text: Vec<String> = Vec::new();
        for y in 0..self.height
            invariant
                self.wf(),
                text@.len() == y,
                forall|k: int| 0 <= k < y ==> (#[trigger] text@[k])@.len() == self.width,
                forall|x: int, k: int|
                    0 <= k < y && 0 <= x < self.width ==> cell_of(#[trigger] text@[k]@[x]) == Some(
                        self.rows()[k][x],
                    ),
        {
            let mut line = String::new();
            for x in 0..self.width
                invariant
                    self.wf(),
                    y < self.height,
                    line@.len() == x,
                    forall|k: int|
                        0 <= k < x ==> cell_of(#[trigger] line@[k]) == Some(self.rows()[y as int][k]),
            {
                match self.get(x, y) {
                    Cell::Alive => line.push('*'),
                    Cell::Dead => line.push('.'),
                }
            }
            text.push(line);
        }
        text
    }
}

} // verus!
