//! Masking predicates: which positions of the rectangle hold a cell.

use vstd::prelude::*;

verus! {

/// True when `(row, column)` is one of the four corners of a rectangle of
/// `rows` by `columns`.
pub open spec fn corner(rows: u32, columns: u32, row: u32, column: u32) -> bool {
    (row == 0 || row == rows - 1) && (column == 0 || column == columns - 1)
}

/// The mask that allows every position but the four corners of a rectangle
/// of `rows` by `columns`.
pub fn mask_corners(rows: u32, columns: u32) -> (allowed: impl Fn(u32, u32) -> bool)
    requires
        rows > 0,
        columns > 0,
    ensures
        forall|row: u32, column: u32| call_requires(allowed, (row, column)),
        forall|row: u32, column: u32, answer: bool|
            call_ensures(allowed, (row, column), answer) ==> answer == !corner(
                rows,
                columns,
                row,
                column,
            ),
{
    move |r: u32, c: u32| -> (answer: bool)
        ensures
            answer == !corner(rows, columns, r, c),
        { !((r == 0 || r == rows - 1) && (c == 0 || c == columns - 1)) }
}

} // verus!
