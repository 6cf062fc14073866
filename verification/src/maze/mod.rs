//! The data model shared by every maze: cells, the direction capability and
//! the per-cell bookkeeping.

use vstd::prelude::*;

pub mod attributes;
pub mod grid;
pub mod image;
pub mod mask;
pub mod text;
pub mod view;

verus! {

/// A grid position, identified by its row and column alone.
#[derive(Debug, PartialEq, Eq, Structural, Hash, Copy, Clone)]
pub struct Cell {
    pub row: u32,
    pub column: u32,
}

impl Cell {
    pub fn row(&self) -> (r: u32)
        ensures
            r == self.row,
    {
        self.row
    }

    pub fn column(&self) -> (c: u32)
        ensures
            c == self.column,
    {
        self.column
    }

    pub fn coords(&self) -> (rc: (u32, u32))
        ensures
            rc == (self.row, self.column),
    {
        (self.row, self.column)
    }
}

/// True when `(row, column)` lies inside a rectangle of `rows` by `columns`.
pub open spec fn inside(rows: int, columns: int, row: int, column: int) -> bool {
    0 <= row < rows && 0 <= column < columns
}

/// The row-major index of `(row, column)` in a rectangle `columns` wide.
pub open spec fn slot(columns: int, row: int, column: int) -> int {
    row * columns + column
}

/// The capabilities of a compass scheme whose every variant moves by one
/// unit offset on the grid.
pub trait Direction: Sized + Copy {
    /// The opposite direction.
    spec fn reversed(self) -> Self;

    /// The coordinates one step away from `(row, column)`.
    spec fn step(self, row: int, column: int) -> (int, int);

    /// Every variant, in the fixed order in which it is enumerated.
    spec fn every() -> Seq<Self>;

    /// Reversing twice gives the direction back, and a step followed by a
    /// step in the reverse direction returns to where it began.
    proof fn lemma_reverse_involution(self, row: int, column: int)
        ensures
            self.reversed().reversed() == self,
            ({
                let there = self.step(row, column);
                self.reversed().step(there.0, there.1) == (row, column)
            }),
    ;

    /// A step always moves, and every variant is enumerated exactly once.
    proof fn lemma_every_complete(self, row: int, column: int)
        ensures
            self.step(row, column) != (row, column),
            Self::every().contains(self),
            Self::every().no_duplicates(),
    ;

    fn reverse(&self) -> (r: Self)
        ensures
            r == self.reversed(),
    ;

    /// The raw neighbour coordinates. The caller has checked that the move
    /// stays within the range of the coordinates.
    fn neighbour(&self, row: u32, column: u32) -> (rc: (u32, u32))
        requires
            inside(
                u32::MAX + 1,
                u32::MAX + 1,
                self.step(row as int, column as int).0,
                self.step(row as int, column as int).1,
            ),
        ensures
            (rc.0 as int, rc.1 as int) == self.step(row as int, column as int),
    ;

    /// The neighbour coordinates, or `None` when the step would leave the
    /// rectangle of `rows` by `columns`.
    fn checked_neighbour(&self, rows: u32, columns: u32, row: u32, column: u32) -> (rc: Option<
        (u32, u32),
    >)
        ensures
            ({
                let there = self.step(row as int, column as int);
                if inside(rows as int, columns as int, there.0, there.1) {
                    rc matches Some(p) && (p.0 as int, p.1 as int) == there
                } else {
                    rc is None
                }
            }),
    ;

    /// The row-major index of `(row, column)`, or `None` outside the rectangle.
    fn offset(rows: u32, columns: u32, row: u32, column: u32) -> (index: Option<usize>)
        requires
            rows * columns <= usize::MAX,
        ensures
            match index {
                Some(i) => inside(rows as int, columns as int, row as int, column as int) && i
                    == slot(columns as int, row as int, column as int) && i < rows * columns,
                None => !inside(rows as int, columns as int, row as int, column as int),
            },
    ;

    fn all() -> (list: Vec<Self>)
        ensures
            list@ == Self::every(),
    ;
}

} // verus!
