//! Points of the board, named either by row and column or by their place in
//! the row-major list of cells.

use vstd::prelude::*;
use vstd::std_specs::cmp::PartialEqSpecImpl;

verus! {

/// The side length that a coordinate goes by when it is converted without a
/// board at hand.
pub const BOARD_SIZE: usize = 5;

/// A point of the board. `Index` is the canonical form; two coordinates are
/// equal when they name the same index on a board of side `BOARD_SIZE`.
#[derive(Clone, Copy, Debug)]
pub enum Coordinate {
    /// Row and column, both counted from zero.
    Position((usize, usize)),
    /// Place in the row-major list of cells.
    Index(usize),
}

impl Coordinate {
    /// The row-major index of this point on a board of side `size`.
    pub open spec fn index_on(self, size: int) -> int {
        match self {
            Coordinate::Index(value) => value as int,
            Coordinate::Position((x, y)) => x * size + y,
        }
    }

    /// Row and column of this point on a board of side `size`.
    pub open spec fn position_on(self, size: int) -> (int, int) {
        match self {
            Coordinate::Index(value) => (value as int / size, value as int % size),
            Coordinate::Position((x, y)) => (x as int, y as int),
        }
    }

    /// The index on a board of side `BOARD_SIZE`.
    pub open spec fn index(self) -> int {
        self.index_on(BOARD_SIZE as int)
    }

    /// Row and column on a board of side `BOARD_SIZE`.
    pub open spec fn position(self) -> (int, int) {
        self.position_on(BOARD_SIZE as int)
    }

    /// Whether the index on a board of side `BOARD_SIZE` is a machine integer.
    pub open spec fn representable(self) -> bool {
        self.index() <= usize::MAX
    }

    /// Whether the point lies on a board of side `size`.
    pub open spec fn on_board(self, size: int) -> bool {
        0 <= self.index_on(size) < size * size
    }

    /// Converts a position to the index it names, and an index to its
    /// position.
    pub fn into(&self) -> (other: Coordinate)
        requires
            self.representable(),
        ensures
            *self is Index ==> other == Coordinate::Position(
                ((self.position().0) as usize, (self.position().1) as usize),
            ),
            *self is Position ==> other == Coordinate::Index(self.index() as usize),
    {
        match self {
            Coordinate::Index(value) => {
                Coordinate::Position((*value / BOARD_SIZE, *value % BOARD_SIZE))
            },
            Coordinate::Position((x, y)) => { Coordinate::Index(*x * BOARD_SIZE + *y) },
        }
    }

    /// The same point in index form.
    pub fn into_index(&self) -> (other: Coordinate)
        requires
            self.representable(),
        ensures
            other == Coordinate::Index(self.index() as usize),
    {
        match self {
            Coordinate::Index(_value) => { *self },
            Coordinate::Position((_x, _y)) => { self.into() },
        }
    }

    /// The same point in position form.
    pub fn into_position(&self) -> (other: Coordinate)
        ensures
            other == Coordinate::Position(
                ((self.position().0) as usize, (self.position().1) as usize),
            ),
    {
        match self {
            Coordinate::Index(value) => {
                Coordinate::Position((*value / BOARD_SIZE, *value % BOARD_SIZE))
            },
            Coordinate::Position((_x, _y)) => { *self },
        }
    }

    /// An index coordinate, if `index` lies on a board of side `BOARD_SIZE`.
    pub fn _new_index(index: usize) -> (made: Option<Coordinate>)
        ensures
            made == (if index < BOARD_SIZE * BOARD_SIZE {
                Some(Coordinate::Index(index))
            } else {
                None
            }),
    {
        if index < (BOARD_SIZE * BOARD_SIZE) {
            return Some(Coordinate::Index(index))
        }
        return None
    }

    /// A position coordinate, if row and column lie on a board of side
    /// `BOARD_SIZE`.
    pub fn _new_position(position: (usize, usize)) -> (made: Option<Coordinate>)
        ensures
            made == (if position.0 < BOARD_SIZE && position.1 < BOARD_SIZE {
                Some(Coordinate::Position(position))
            } else {
                None
            }),
    {
        if position.0 < BOARD_SIZE && position.1 < BOARD_SIZE {
            return Some(Coordinate::Position(position))
        }
        return None
    }

    /// The index of this point on a board of side `BOARD_SIZE`.
    pub fn get_index(&self) -> (index: usize)
        requires
            self.representable(),
        ensures
            index == self.index(),
    {
        let new = self.into_index();
        match new {
            Coordinate::Index(value) => { value },
            Coordinate::Position(_) => 0,
        }
    }

    /// Row and column of this point on a board of side `BOARD_SIZE`.
    pub fn get_position(&self) -> (position: (usize, usize))
        ensures
            position.0 == self.position().0,
            position.1 == self.position().1,
    {
        let new = self.into_position();
        match new {
            Coordinate::Index(_) => { (0, 0) },
            Coordinate::Position(value) => { value },
        }
    }

    /// The cell that this point names on a board of side `size`, or `None`
    /// when it lies off that board.
    pub fn cell_on(&self, size: usize) -> (cell: Option<usize>)
        requires
            size * size <= usize::MAX,
        ensures
            cell == (if self.on_board(size as int) {
                Some(self.index_on(size as int) as usize)
            } else {
                None
            }),
    {
        let cells: usize = size * size;
        match self {
            Coordinate::Index(value) => {
                if *value < cells {
                    Some(*value)
                } else {
                    None
                }
            },
            Coordinate::Position((x, y)) => {
                if *x >= size {
                    assert(*x * size + *y >= size * size) by (nonlinear_arith)
                        requires
                            *x >= size,
                    ;
                    None
                } else {
                    assert(*x * size + size <= size * size) by (nonlinear_arith)
                        requires
                            *x < size,
                    ;
                    let row_start: usize = *x * size;
                    if *y < cells - row_start {
                        Some(row_start + *y)
                    } else {
                        None
                    }
                }
            },
        }
    }
}

impl PartialEq for Coordinate {
    fn eq(&self, other: &Self) -> (same: bool) {
        let mine: u128 = match self {
            Coordinate::Index(value) => *value as u128,
            Coordinate::Position((x, y)) => (*x as u128) * 5 + (*y as u128),
        };
        let theirs: u128 = match other {
            Coordinate::Index(value) => *value as u128,
            Coordinate::Position((x, y)) => (*x as u128) * 5 + (*y as u128),
        };
        mine == theirs
    }
}

impl Eq for Coordinate {}

impl std::hash::Hash for Coordinate {
    fn hash<H: std::hash::Hasher>(&self, state: &mut H) {
        let mine: u128 = match self {
            Coordinate::Index(value) => *value as u128,
            Coordinate::Position((x, y)) => (*x as u128) * 5 + (*y as u128),
        };
        mine.hash(state);
    }
}

impl PartialEqSpecImpl for Coordinate {
    open spec fn obeys_eq_spec() -> bool {
        true
    }

    open spec fn eq_spec(&self, other: &Self) -> bool {
        self.index() == other.index()
    }
}

} // verus!
