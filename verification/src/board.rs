//! The board: players, cells, coordinates, and the grid itself.

use vstd::prelude::*;
use vstd::pervasive::VecAdditionalExecFns;
use crate::model::{
    GridView, grid_wf, in_bounds, idx, cell_at, max_size, lemma_idx_bounds, render,
    lemma_render_rows_done, lemma_render_rows_step, lemma_render_row_done, lemma_render_row_step,
};

verus! {

/// One of the two players.
#[derive(Clone, Copy, PartialEq, Eq, Structural, Debug)]
pub enum Player {
    White,
    Black,
}

/// The display symbol of a player's stones.
pub open spec fn symbol_of(p: Player) -> char {
    match p {
        Player::White => 'o',
        Player::Black => 'x',
    }
}

/// The player who moves after p.
pub open spec fn other_of(p: Player) -> Player {
    match p {
        Player::White => Player::Black,
        Player::Black => Player::White,
    }
}

impl Player {
    pub fn symbol(&self) -> (r: char)
        ensures
            r == symbol_of(*self),
    {
        match *self {
            Player::White => 'o',
            Player::Black => 'x',
        }
    }

    /// The opponent: turn order alternates strictly between the two players.
    pub fn other(&self) -> (r: Player)
        ensures
            r == other_of(*self),
    {
        match *self {
            Player::White => Player::Black,
            Player::Black => Player::White,
        }
    }
}

/// One point of the grid: empty, or occupied by one player's stone.
#[derive(Clone, Copy, PartialEq, Eq, Structural, Debug)]
pub enum Cell {
    Empty,
    Stone(Player),
}

/// The display character of a cell.
pub open spec fn cell_char(c: Cell) -> char {
    match c {
        Cell::Empty => '.',
        Cell::Stone(p) => symbol_of(p),
    }
}

/// A 1-based (row, column) coordinate.
#[derive(Clone, Copy, PartialEq, Eq, Structural, Debug)]
pub struct Coord(pub usize, pub usize);

impl View for Coord {
    type V = (int, int);

    open spec fn view(&self) -> (int, int) {
        (self.0 as int, self.1 as int)
    }
}

/// The caller-correctable failures of the board boundary.
#[derive(Clone, Copy, PartialEq, Eq, Structural, Debug)]
pub enum GoError {
    /// A row or column outside 1..=size, or an unresolvable row label.
    InvalidCoordinate,
    /// A requested side length of zero, or one too large for the index space.
    InvalidBoardSize,
}

/// Largest accepted side length.
pub const MAX_BOARD_SIZE: usize = 255;

/// The 1-based row index of an external row label: the letters A..T in order,
/// with the letter I skipped by convention. Any other character resolves to
/// no index.
pub open spec fn spec_row_label_index(label: char) -> Option<usize> {
    match label {
        'A' => Some(1usize),
        'B' => Some(2usize),
        'C' => Some(3usize),
        'D' => Some(4usize),
        'E' => Some(5usize),
        'F' => Some(6usize),
        'G' => Some(7usize),
        'H' => Some(8usize),
        'J' => Some(9usize),
        'K' => Some(10usize),
        'L' => Some(11usize),
        'M' => Some(12usize),
        'N' => Some(13usize),
        'O' => Some(14usize),
        'P' => Some(15usize),
        'Q' => Some(16usize),
        'R' => Some(17usize),
        'S' => Some(18usize),
        'T' => Some(19usize),
        _ => None,
    }
}

/// Decode an external row label into the 1-based row index.
pub fn row_label_index(label: char) -> (r: Option<usize>)
    ensures
        r == spec_row_label_index(label),
        r matches Some(i) ==> 1 <= i <= 19,
{
    match label {
        'A' => Some(1),
        'B' => Some(2),
        'C' => Some(3),
        'D' => Some(4),
        'E' => Some(5),
        'F' => Some(6),
        'G' => Some(7),
        'H' => Some(8),
        'J' => Some(9),
        'K' => Some(10),
        'L' => Some(11),
        'M' => Some(12),
        'N' => Some(13),
        'O' => Some(14),
        'P' => Some(15),
        'Q' => Some(16),
        'R' => Some(17),
        'S' => Some(18),
        'T' => Some(19),
        _ => None,
    }
}

/// Row-major index of an in-bounds coordinate.
pub fn get_index(size: usize, coord: Coord) -> (r: usize)
    requires
        size <= max_size(),
        in_bounds(size as int, coord@.0, coord@.1),
    ensures
        r == idx(size as int, coord@.0, coord@.1),
        r < size * size,
{
    proof {
        lemma_idx_bounds(size as int, coord@.0, coord@.1);
        assert((coord@.0 - 1) * (size as int) <= 254 * 255 && (coord@.0 - 1) * (size as int)
            + (coord@.1 - 1) <= 255 * 255) by (nonlinear_arith)
            requires
                1 <= coord@.0 <= size as int,
                1 <= coord@.1 <= size as int,
                size as int <= 255,
        ;
    }
    (coord.0 - 1) * size + (coord.1 - 1)
}

/// A fixed-size grid of cells, stored row-major.
pub struct Board {
    cells: Vec<Cell>,
    size: usize,
}

impl View for Board {
    type V = GridView;

    closed spec fn view(&self) -> GridView {
        GridView { cells: self.cells@, size: self.size as int }
    }
}

impl Board {
    pub open spec fn wf(&self) -> bool {
        grid_wf(self@)
    }

    /// A size-by-size grid, all cells empty. A degenerate size is refused.
    pub fn new(size: usize) -> (r: Result<Board, GoError>)
        ensures
            (size == 0 || size > max_size()) <==> r is Err,
            r is Err ==> r == Result::<Board, GoError>::Err(GoError::InvalidBoardSize),
            r matches Ok(b) ==> b.wf() && b@.size == size && (forall|k: int|
                0 <= k < b@.cells.len() ==> b@.cells[k] == Cell::Empty),
    {
        if size == 0 || size > MAX_BOARD_SIZE {
            return Err(GoError::InvalidBoardSize);
        }
        assert(size * size <= 255 * 255) by (nonlinear_arith)
            requires
                size <= 255,
        ;
        let n = size * size;
        let mut cells: Vec<Cell> = Vec::new();
        let mut i: usize = 0;
        while i < n
            invariant
                i <= n,
                cells@.len() == i,
                forall|k: int| 0 <= k < i ==> cells@[k] == Cell::Empty,
            decreases n - i,
        {
            cells.push(Cell::Empty);
            i = i + 1;
        }
        Ok(Board { cells, size })
    }

    pub fn size(&self) -> (r: usize)
        ensures
            r == self@.size,
    {
        self.size
    }

    /// The cell at an in-bounds coordinate.
    pub(crate) fn at(&self, coord: Coord) -> (r: Cell)
        requires
            self.wf(),
            in_bounds(self@.size, coord@.0, coord@.1),
        ensures
            r == cell_at(self@, coord@.0, coord@.1),
    {
        let k = get_index(self.size, coord);
        self.cells[k]
    }

    /// Write an in-bounds cell.
    pub(crate) fn put(&mut self, coord: Coord, cell: Cell)
        requires
            old(self).wf(),
            in_bounds(old(self)@.size, coord@.0, coord@.1),
        ensures
            final(self).wf(),
            final(self)@.size == old(self)@.size,
            final(self)@.cells == old(self)@.cells.update(
                idx(old(self)@.size, coord@.0, coord@.1),
                cell,
            ),
    {
        let k = get_index(self.size, coord);
        self.cells.set(k, cell);
    }

    /// Read one cell; an out-of-bounds coordinate is a typed failure.
    pub fn get(&self, coord: Coord) -> (r: Result<Cell, GoError>)
        requires
            self.wf(),
        ensures
            in_bounds(self@.size, coord@.0, coord@.1) ==> r == Result::<Cell, GoError>::Ok(
                cell_at(self@, coord@.0, coord@.1),
            ),
            !in_bounds(self@.size, coord@.0, coord@.1) ==> r == Result::<Cell, GoError>::Err(
                GoError::InvalidCoordinate,
            ),
    {
        if coord.0 >= 1 && coord.0 <= self.size && coord.1 >= 1 && coord.1 <= self.size {
            Ok(self.at(coord))
        } else {
            Err(GoError::InvalidCoordinate)
        }
    }

    /// Write one cell; an out-of-bounds coordinate is a typed failure
    /// and leaves the board unchanged.
    pub fn set(&mut self, coord: Coord, cell: Cell) -> (r: Result<(), GoError>)
        requires
            old(self).wf(),
        ensures
            final(self).wf(),
            final(self)@.size == old(self)@.size,
            in_bounds(old(self)@.size, coord@.0, coord@.1) ==> r == Result::<(), GoError>::Ok(())
                && final(self)@.cells == old(self)@.cells.update(
                idx(old(self)@.size, coord@.0, coord@.1),
                cell,
            ),
            !in_bounds(old(self)@.size, coord@.0, coord@.1) ==> r == Result::<(), GoError>::Err(
                GoError::InvalidCoordinate,
            ) && final(self)@ == old(self)@,
    {
        if coord.0 >= 1 && coord.0 <= self.size && coord.1 >= 1 && coord.1 <= self.size {
            self.put(coord, cell);
            Ok(())
        } else {
            Err(GoError::InvalidCoordinate)
        }
    }

    /// Clear every cell to empty, keeping the size.
    pub fn reset(&mut self)
        requires
            old(self).wf(),
        ensures
            final(self).wf(),
            final(self)@.size == old(self)@.size,
            forall|k: int| 0 <= k < final(self)@.cells.len() ==> final(self)@.cells[k]
                == Cell::Empty,
    {
        let n = self.cells.len();
        let mut i: usize = 0;
        while i < n
            invariant
                i <= n,
                self.cells@.len() == n,
                self.size == old(self).size,
                forall|k: int| 0 <= k < i ==> self.cells@[k] == Cell::Empty,
            decreases n - i,
        {
            self.cells.set(i, Cell::Empty);
            i = i + 1;
        }
    }

    /// The full grid in row-major order, for external rendering or storage.
    pub fn snapshot(&self) -> (r: Vec<Cell>)
        ensures
            r@ == self@.cells,
    {
        let n = self.cells.len();
        let mut out: Vec<Cell> = Vec::new();
        let mut i: usize = 0;
        while i < n
            invariant
                i <= n,
                self.cells@.len() == n,
                out@ == self.cells@.subrange(0, i as int),
            decreases n - i,
        {
            out.push(self.cells[i]);
            i = i + 1;
            proof {
                assert(out@ =~= self.cells@.subrange(0, i as int));
            }
        }
        proof {
            assert(out@ =~= self.cells@);
        }
        out
    }

    /// Rebuild a board from a snapshot; occupancy is reproduced exactly.
    pub fn from_snapshot(cells: Vec<Cell>, size: usize) -> (r: Result<Board, GoError>)
        ensures
            r is Ok <==> (1 <= size <= max_size() && cells@.len() == size * size),
            r matches Ok(b) ==> b.wf() && b@.size == size && b@.cells == cells@,
    {
        if size == 0 || size > MAX_BOARD_SIZE {
            return Err(GoError::InvalidBoardSize);
        }
        assert(size * size <= 255 * 255) by (nonlinear_arith)
            requires
                size <= 255,
        ;
        if cells.len() != size * size {
            return Err(GoError::InvalidBoardSize);
        }
        Ok(Board { cells, size })
    }

    /// A display-ready grid: each row on its own line, opened by a newline,
    /// every cell as its symbol followed by a blank.
    pub fn to_string(&self) -> (r: String)
        requires
            self.wf(),
        ensures
            r@ == render(self@),
    {
        let mut out = String::new();
        let size = self.size;
        let mut row: usize = 1;
        proof {
            assert(out@ + render(self@) =~= render(self@));
        }
        while row <= size
            invariant
                self.wf(),
                size == self@.size,
                1 <= row <= size + 1,
                out@ + crate::model::render_rows(self@, row as int) == render(self@),
            decreases size + 1 - row,
        {
            out.append("\n");
            proof {
                reveal_strlit("\n");
            }
            let mut col: usize = 1;
            proof {
                lemma_render_rows_step(self@, row as int);
                assert(out@ + (crate::model::render_row(self@, row as int, 1)
                    + crate::model::render_rows(self@, row as int + 1)) =~= render(self@));
            }
            while col <= size
                invariant
                    self.wf(),
                    size == self@.size,
                    1 <= row <= size,
                    1 <= col <= size + 1,
                    out@ + (crate::model::render_row(self@, row as int, col as int)
                        + crate::model::render_rows(self@, row as int + 1)) == render(self@),
                decreases size + 1 - col,
            {
                let cell = self.at(Coord(row, col));
                match cell {
                    Cell::Empty => {
                        out.append(". ");
                        proof {
                            reveal_strlit(". ");
                        }
                    },
                    Cell::Stone(Player::White) => {
                        out.append("o ");
                        proof {
                            reveal_strlit("o ");
                        }
                    },
                    Cell::Stone(Player::Black) => {
                        out.append("x ");
                        proof {
                            reveal_strlit("x ");
                        }
                    },
                }
                proof {
                    lemma_render_row_step(self@, row as int, col as int);
                    assert(out@ + (crate::model::render_row(self@, row as int, col as int + 1)
                        + crate::model::render_rows(self@, row as int + 1)) =~= render(self@));
                }
                col = col + 1;
            }
            proof {
                lemma_render_row_done(self@, row as int, col as int);
                assert(out@ + crate::model::render_rows(self@, row as int + 1) =~= render(self@));
            }
            row = row + 1;
        }
        proof {
            lemma_render_rows_done(self@, row as int);
            assert(out@ =~= render(self@));
        }
        out
    }
}

} // verus!
