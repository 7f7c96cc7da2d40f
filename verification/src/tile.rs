//! Tiles: half-dominoes with a slide direction.
//!
//! A domino is always a pair of tiles.  A horizontal domino is two tiles with
//! directions `Top` and `Bottom` stacked over the same two columns; a vertical
//! domino is two tiles with directions `Left` and `Right` side by side over
//! the same two rows.  The direction names the way the tile slides during the
//! move phase, not its shape.

use vstd::prelude::*;
use crate::lattice::in_diamond;
use crate::lattice::CAP_MAX;

verus! {

/// Slide direction of a tile.  `Top`/`Bottom` tiles span two columns of one
/// row; `Left`/`Right` tiles span two rows of one column.
#[derive(Clone, Copy, PartialEq, Eq, Structural, Debug)]
pub enum Direction {
    Top,
    Bottom,
    Left,
    Right,
}

/// One tile: its anchor cell (the smaller-indexed of the two cells it spans)
/// and its slide direction.
#[derive(Clone, Copy, PartialEq, Eq, Structural, Debug)]
pub struct Tile {
    pub row: usize,
    pub col: usize,
    pub dir: Direction,
}

impl Tile {
    /// Whether the tile spans two columns of one row.
    pub open spec fn horizontal(self) -> bool {
        self.dir == Direction::Top || self.dir == Direction::Bottom
    }

    /// Row of the tile's second cell.
    pub open spec fn row2(self) -> int {
        if self.horizontal() {
            self.row as int
        } else {
            self.row + 1
        }
    }

    /// Column of the tile's second cell.
    pub open spec fn col2(self) -> int {
        if self.horizontal() {
            self.col + 1
        } else {
            self.col as int
        }
    }

    /// Whether the tile covers the cell `(i, j)`.
    pub open spec fn covers(self, i: int, j: int) -> bool {
        (i == self.row && j == self.col) || (i == self.row2() && j == self.col2())
    }

    /// Both cells of the tile lie inside a diamond of side `size`.
    pub open spec fn inside(self, size: int) -> bool {
        in_diamond(size, self.row as int, self.col as int)
            && in_diamond(size, self.row2(), self.col2())
    }

    /// Anchor row after one slide along the tile's direction.
    pub open spec fn slid_row(self) -> int {
        match self.dir {
            Direction::Top => self.row - 1,
            Direction::Bottom => self.row + 1,
            _ => self.row as int,
        }
    }

    /// Anchor column after one slide along the tile's direction.
    pub open spec fn slid_col(self) -> int {
        match self.dir {
            Direction::Left => self.col - 1,
            Direction::Right => self.col + 1,
            _ => self.col as int,
        }
    }

    /// Value of this tile one cell further along its direction.
    pub open spec fn slid_spec(self) -> Tile {
        Tile { row: self.slid_row() as usize, col: self.slid_col() as usize, dir: self.dir }
    }

    /// Value of this tile shifted one cell down and one right.
    pub open spec fn shifted_spec(self) -> Tile {
        Tile { row: (self.row + 1) as usize, col: (self.col + 1) as usize, dir: self.dir }
    }

    /// The tile one cell further along its own direction.
    pub fn slid(self) -> (r: Tile)
        requires
            self.slid_row() >= 0,
            self.slid_col() >= 0,
            self.row < CAP_MAX,
            self.col < CAP_MAX,
        ensures
            r.row == self.slid_row(),
            r.col == self.slid_col(),
            r.dir == self.dir,
    {
        match self.dir {
            Direction::Top => Tile { row: self.row - 1, ..self },
            Direction::Bottom => Tile { row: self.row + 1, ..self },
            Direction::Left => Tile { col: self.col - 1, ..self },
            Direction::Right => Tile { col: self.col + 1, ..self },
        }
    }

    /// The tile shifted one cell down and one right, as every tile is when
    /// the board grows and is recentered.
    pub fn shifted(self) -> (r: Tile)
        requires
            self.row < CAP_MAX,
            self.col < CAP_MAX,
        ensures
            r.row == self.row + 1,
            r.col == self.col + 1,
            r.dir == self.dir,
    {
        Tile { row: self.row + 1, col: self.col + 1, dir: self.dir }
    }
}

} // verus!
