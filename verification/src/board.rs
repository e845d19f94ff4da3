//! The playing field: sides, coordinates, compass directions and the grid of
//! cells, together with the bounds- and occupancy-checked cell operations.

use vstd::prelude::*;

verus! {

use vstd::pervasive::VecAdditionalExecFns;
use crate::rules::{cell_at, cell_index};

/// Number of rows (and of columns) of the board.
pub const BOARD_SIZE: usize = 8;

/// Total number of cells of the board.
pub const NUM_CELLS: usize = 64;

/// One of the two players. Every disk on the board belongs to one side.
#[derive(Clone, Copy, Debug, PartialEq, Eq, Structural)]
pub enum Side {
    Dark,
    Light,
}

impl Side {
    pub open spec fn spec_opposite(self) -> Side {
        match self {
            Side::Dark => Side::Light,
            Side::Light => Side::Dark,
        }
    }

    /// The opponent of this side.
    pub fn opposite(self) -> (r: Side)
        ensures
            r == self.spec_opposite(),
    {
        match self {
            Side::Dark => Side::Light,
            Side::Light => Side::Dark,
        }
    }
}

/// A cell is empty or holds a disk of one side.
pub type Cell = Option<Side>;

/// A position on the board. Any pair of numbers is a coordinate; only those
/// with both components below `BOARD_SIZE` address a cell.
#[derive(Clone, Copy, Debug, PartialEq, Eq, Structural)]
pub struct Coord {
    pub row: usize,
    pub col: usize,
}

impl Coord {
    pub fn new(row: usize, col: usize) -> (c: Coord)
        ensures
            c == (Coord { row, col }),
    {
        Coord { row, col }
    }

    pub open spec fn spec_in_bounds(self) -> bool {
        self.row < BOARD_SIZE && self.col < BOARD_SIZE
    }

    /// Whether the coordinate addresses a cell of the board.
    pub fn in_bounds(self) -> (r: bool)
        ensures
            r == self.spec_in_bounds(),
    {
        self.row < BOARD_SIZE && self.col < BOARD_SIZE
    }
}

/// The eight compass directions of the capture scan.
#[derive(Clone, Copy, Debug, PartialEq, Eq, Structural)]
pub enum Direction {
    North,
    NorthEast,
    East,
    SouthEast,
    South,
    SouthWest,
    West,
    NorthWest,
}

impl Direction {
    /// Row offset of one step in this direction.
    pub open spec fn delta_row(self) -> int {
        match self {
            Direction::North => -1,
            Direction::NorthEast => -1,
            Direction::East => 0,
            Direction::SouthEast => 1,
            Direction::South => 1,
            Direction::SouthWest => 1,
            Direction::West => 0,
            Direction::NorthWest => -1,
        }
    }

    /// Column offset of one step in this direction.
    pub open spec fn delta_col(self) -> int {
        match self {
            Direction::North => 0,
            Direction::NorthEast => 1,
            Direction::East => 1,
            Direction::SouthEast => 1,
            Direction::South => 0,
            Direction::SouthWest => -1,
            Direction::West => -1,
            Direction::NorthWest => -1,
        }
    }
}

/// The direction with the given scan index; the scan visits indices 0 to 7.
pub open spec fn dir_of_index(i: int) -> Direction {
    if i == 0 {
        Direction::North
    } else if i == 1 {
        Direction::NorthEast
    } else if i == 2 {
        Direction::East
    } else if i == 3 {
        Direction::SouthEast
    } else if i == 4 {
        Direction::South
    } else if i == 5 {
        Direction::SouthWest
    } else if i == 6 {
        Direction::West
    } else {
        Direction::NorthWest
    }
}

pub fn direction_from_index(i: usize) -> (d: Direction)
    requires
        i < 8,
    ensures
        d == dir_of_index(i as int),
{
    if i == 0 {
        Direction::North
    } else if i == 1 {
        Direction::NorthEast
    } else if i == 2 {
        Direction::East
    } else if i == 3 {
        Direction::SouthEast
    } else if i == 4 {
        Direction::South
    } else if i == 5 {
        Direction::SouthWest
    } else if i == 6 {
        Direction::West
    } else {
        Direction::NorthWest
    }
}

/// Every direction is visited by the scan over indices 0 to 7.
pub proof fn lemma_every_direction_indexed(d: Direction)
    ensures
        exists|i: int| 0 <= i < 8 && dir_of_index(i) == d,
{
    match d {
        Direction::North => assert(dir_of_index(0) == d),
        Direction::NorthEast => assert(dir_of_index(1) == d),
        Direction::East => assert(dir_of_index(2) == d),
        Direction::SouthEast => assert(dir_of_index(3) == d),
        Direction::South => assert(dir_of_index(4) == d),
        Direction::SouthWest => assert(dir_of_index(5) == d),
        Direction::West => assert(dir_of_index(6) == d),
        Direction::NorthWest => assert(dir_of_index(7) == d),
    }
}

/// The failures of the board operations and of the game moves.
#[derive(Clone, Copy, Debug, PartialEq, Eq, Structural)]
pub enum ReversiError {
    /// The coordinate lies outside the board.
    OutOfBoundCoord(Coord),
    /// The addressed cell already holds a disk.
    CellAlreadyTaken(Coord),
    /// The addressed cell holds no disk to flip.
    EmptyCell(Coord),
    /// The move captures nothing in any direction.
    IllegalMove(Coord),
    /// The game has ended; no further moves are possible.
    EndedGame,
}

/// The grid of cells, stored row by row.
pub struct Board {
    cells: Vec<Cell>,
}

impl View for Board {
    type V = Seq<Cell>;

    closed spec fn view(&self) -> Seq<Cell> {
        self.cells@
    }
}

impl Board {
    pub open spec fn wf(self) -> bool {
        self@.len() == NUM_CELLS
    }

    /// A board with every cell empty.
    pub fn new() -> (b: Board)
        ensures
            b.wf(),
            forall|k: int| 0 <= k < NUM_CELLS ==> b@[k] is None,
    {
        let mut cells: Vec<Cell> = Vec::new();
        let mut i: usize = 0;
        while i < NUM_CELLS
            invariant
                i <= NUM_CELLS,
                cells@.len() == i,
                forall|k: int| 0 <= k < i ==> cells@[k] is None,
            decreases NUM_CELLS - i,
        {
            cells.push(None);
            i += 1;
        }
        Board { cells }
    }

    /// The cell at an in-bounds position.
    pub(crate) fn at(&self, row: usize, col: usize) -> (r: Cell)
        requires
            self.wf(),
            row < BOARD_SIZE,
            col < BOARD_SIZE,
        ensures
            r == cell_at(self@, row as int, col as int),
    {
        self.cells[row * BOARD_SIZE + col]
    }

    /// Writes a disk of `side` into an in-bounds empty cell.
    pub(crate) fn put(&mut self, side: Side, row: usize, col: usize)
        requires
            old(self).wf(),
            row < BOARD_SIZE,
            col < BOARD_SIZE,
            cell_at(old(self)@, row as int, col as int) is None,
        ensures
            final(self).wf(),
            final(self)@ == old(self)@.update(cell_index(row as int, col as int), Some(side)),
    {
        self.cells.set(row * BOARD_SIZE + col, Some(side));
    }

    /// Turns the disk in an in-bounds occupied cell over to the other side.
    pub(crate) fn turn_over(&mut self, row: usize, col: usize)
        requires
            old(self).wf(),
            row < BOARD_SIZE,
            col < BOARD_SIZE,
            cell_at(old(self)@, row as int, col as int) is Some,
        ensures
            final(self).wf(),
            final(self)@ == old(self)@.update(
                cell_index(row as int, col as int),
                Some(cell_at(old(self)@, row as int, col as int)->0.spec_opposite()),
            ),
    {
        let here = self.cells[row * BOARD_SIZE + col];
        match here {
            Some(side) => self.cells.set(row * BOARD_SIZE + col, Some(side.opposite())),
            None => (),
        }
    }

    /// The cell addressed by `coord`, or the bounds failure.
    pub fn get_cell(&self, coord: Coord) -> (r: Result<Cell, ReversiError>)
        requires
            self.wf(),
        ensures
            match r {
                Ok(c) => coord.spec_in_bounds() && c == cell_at(
                    self@,
                    coord.row as int,
                    coord.col as int,
                ),
                Err(e) => e == ReversiError::OutOfBoundCoord(coord) && !coord.spec_in_bounds(),
            },
    {
        if coord.in_bounds() {
            Ok(self.at(coord.row, coord.col))
        } else {
            Err(ReversiError::OutOfBoundCoord(coord))
        }
    }

    /// Places a disk of `side` on the empty cell at `coord`.
    pub fn place_disk(&mut self, side: Side, coord: Coord) -> (r: Result<(), ReversiError>)
        requires
            old(self).wf(),
        ensures
            final(self).wf(),
            match r {
                Ok(()) => coord.spec_in_bounds() && cell_at(
                    old(self)@,
                    coord.row as int,
                    coord.col as int,
                ) is None && final(self)@ == old(self)@.update(
                    cell_index(coord.row as int, coord.col as int),
                    Some(side),
                ),
                Err(ReversiError::OutOfBoundCoord(c)) => c == coord && !coord.spec_in_bounds()
                    && final(self)@ == old(self)@,
                Err(ReversiError::CellAlreadyTaken(c)) => c == coord && coord.spec_in_bounds()
                    && cell_at(old(self)@, coord.row as int, coord.col as int) is Some
                    && final(self)@ == old(self)@,
                Err(_) => false,
            },
    {
        if !coord.in_bounds() {
            return Err(ReversiError::OutOfBoundCoord(coord));
        }
        if self.at(coord.row, coord.col).is_some() {
            return Err(ReversiError::CellAlreadyTaken(coord));
        }
        self.put(side, coord.row, coord.col);
        Ok(())
    }

    /// Turns the disk at `coord` over to the other side.
    pub fn flip_disk(&mut self, coord: Coord) -> (r: Result<(), ReversiError>)
        requires
            old(self).wf(),
        ensures
            final(self).wf(),
            match r {
                Ok(()) => coord.spec_in_bounds() && cell_at(
                    old(self)@,
                    coord.row as int,
                    coord.col as int,
                ) is Some && final(self)@ == old(self)@.update(
                    cell_index(coord.row as int, coord.col as int),
                    Some(cell_at(old(self)@, coord.row as int, coord.col as int)->0.spec_opposite()),
                ),
                Err(ReversiError::OutOfBoundCoord(c)) => c == coord && !coord.spec_in_bounds()
                    && final(self)@ == old(self)@,
                Err(ReversiError::EmptyCell(c)) => c == coord && coord.spec_in_bounds() && cell_at(
                    old(self)@,
                    coord.row as int,
                    coord.col as int,
                ) is None && final(self)@ == old(self)@,
                Err(_) => false,
            },
    {
        if !coord.in_bounds() {
            return Err(ReversiError::OutOfBoundCoord(coord));
        }
        if self.at(coord.row, coord.col).is_none() {
            return Err(ReversiError::EmptyCell(coord));
        }
        self.turn_over(coord.row, coord.col);
        Ok(())
    }

    /// The full grid, row by row, for rendering and iteration.
    pub fn get_all_cells(&self) -> (r: &Vec<Cell>)
        ensures
            r@ == self@,
    {
        &self.cells
    }
}

impl Clone for Board {
    /// The clone holds the same cells; the two boards share no storage.
    fn clone(&self) -> (r: Board)
        ensures
            r@ == self@,
    {
        let mut cells: Vec<Cell> = Vec::new();
        let mut i: usize = 0;
        while i < self.cells.len()
            invariant
                i <= self.cells.len(),
                cells@.len() == i,
                forall|k: int| 0 <= k < i ==> cells@[k] == self.cells@[k],
            decreases self.cells.len() - i,
        {
            cells.push(self.cells[i]);
            i += 1;
        }
        proof {
            assert(cells@ =~= self.cells@);
        }
        Board { cells }
    }
}

} // verus!
