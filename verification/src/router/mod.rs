//! Carving policies: how the passages of a maze come to be.
//!
//! A router visits the unmasked cells of a grid and opens passages between
//! neighbours. The two traversal drivers, cell by cell and row by row, are
//! shared by every policy; a policy says what one visit does.

pub mod binarytree;
pub mod dice;
pub mod sidewinder;

use vstd::prelude::*;
use vstd::slice::slice_subrange;
use crate::maze::Cell;
use crate::maze::grid::Grid;
use crate::maze::view::{lemma_slot_bound, GridView, Layout};

verus! {

/// True when a traversal of `cells` in order, one visit for each unmasked
/// slot, may lead from `start` and `before` to `end` and `after`.
pub open spec fn swept<P: Policy>(
    start: P,
    before: GridView,
    cells: Seq<Option<Cell>>,
    end: P,
    after: GridView,
) -> bool
    decreases cells.len(),
{
    if cells.len() == 0 {
        end == start && after == before
    } else {
        match cells.last() {
            Some(cell) => exists|mid: P, between: GridView|
                #![trigger mid.visits(between, cell, end, after)]
                swept(start, before, cells.drop_last(), mid, between) && mid.visits(
                    between,
                    cell,
                    end,
                    after,
                ),
            None => swept(start, before, cells.drop_last(), end, after),
        }
    }
}

/// A traversal of `first` followed by one of `second` is a traversal of
/// both in a row.
pub proof fn lemma_swept_joined<P: Policy>(
    start: P,
    before: GridView,
    first: Seq<Option<Cell>>,
    mid: P,
    between: GridView,
    second: Seq<Option<Cell>>,
    end: P,
    after: GridView,
)
    requires
        swept(start, before, first, mid, between),
        swept(mid, between, second, end, after),
    ensures
        swept(start, before, first + second, end, after),
    decreases second.len(),
{
    if second.len() == 0 {
        assert(first + second =~= first);
    } else {
        let all = first + second;
        assert(all.drop_last() =~= first + second.drop_last());
        assert(all.last() == second.last());
        match second.last() {
            Some(cell) => {
                let (m, b) = choose|m: P, b: GridView|
                    #![trigger m.visits(b, cell, end, after)]
                    swept(mid, between, second.drop_last(), m, b) && m.visits(
                        b,
                        cell,
                        end,
                        after,
                    );
                lemma_swept_joined(start, before, first, mid, between, second.drop_last(), m, b);
                assert(swept(start, before, all.drop_last(), m, b));
            },
            None => {
                lemma_swept_joined(
                    start,
                    before,
                    first,
                    mid,
                    between,
                    second.drop_last(),
                    end,
                    after,
                );
            },
        }
    }
}

/// What a carving policy does when it visits one cell.
pub trait Policy: Sized {
    /// What the policy needs of its own state to work on a grid of the
    /// given layout.
    spec fn ready(&self, layout: Layout) -> bool;

    /// What one visit of `cell` may turn the policy and the grid into.
    spec fn visits(&self, before: GridView, cell: Cell, next: Self, after: GridView) -> bool;

    /// Visits one unmasked cell.
    fn by_cell(&mut self, maze: &mut Grid, cell: Cell)
        requires
            old(maze).wf(),
            old(self).ready(old(maze)@.layout),
            old(maze)@.layout.has(cell),
        ensures
            final(maze).wf(),
            final(maze)@.same_layout(old(maze)@),
            final(self).ready(final(maze)@.layout),
            old(self).visits(old(maze)@, cell, *final(self), final(maze)@),
    ;
}

/// A carving policy together with the traversal it is run by.
pub trait Router: Policy {
    /// What one pass over the whole grid may turn the router and the grid
    /// into.
    spec fn carves(&self, before: GridView, next: Self, after: GridView) -> bool;

    /// Carves the passages of `maze`, whose slots are `cells`.
    fn carve(&mut self, maze: &mut Grid, cells: Vec<Option<Cell>>)
        requires
            old(maze).wf(),
            old(self).ready(old(maze)@.layout),
            cells@ == old(maze)@.layout.cells,
        ensures
            final(maze).wf(),
            final(maze)@.same_layout(old(maze)@),
            final(self).ready(final(maze)@.layout),
            old(self).carves(old(maze)@, *final(self), final(maze)@),
    ;
}

/// The cell-order driver: visits the unmasked slots of `cells` one by
/// one and skips the masked ones.
pub fn carve_by_cell<P: Policy>(policy: &mut P, maze: &mut Grid, cells: Vec<Option<Cell>>)
    requires
        old(maze).wf(),
        old(policy).ready(old(maze)@.layout),
        forall|i: int|
            0 <= i < cells@.len() ==> (#[trigger] cells@[i] matches Some(c) ==> old(
                maze,
            )@.layout.has(c)),
    ensures
        final(maze).wf(),
        final(maze)@.same_layout(old(maze)@),
        final(policy).ready(final(maze)@.layout),
        swept(*old(policy), old(maze)@, cells@, *final(policy), final(maze)@),
{
    let mut i: usize = 0;
    while i < cells.len()
        invariant
            i <= cells@.len(),
            maze.wf(),
            maze@.same_layout(old(maze)@),
            policy.ready(maze@.layout),
            forall|j: int|
                0 <= j < cells@.len() ==> (#[trigger] cells@[j] matches Some(c) ==> old(
                    maze,
                )@.layout.has(c)),
            swept(*old(policy), old(maze)@, cells@.subrange(0, i as int), *policy, maze@),
        decreases cells@.len() - i,
    {
        let ghost mid = *policy;
        let ghost between = maze@;
        if let Some(cell) = cells[i] {
            policy.by_cell(maze, cell);
        }
        proof {
            let prefix = cells@.subrange(0, i as int + 1);
            assert(prefix.drop_last() =~= cells@.subrange(0, i as int));
            assert(prefix.last() == cells@[i as int]);
            assert(swept(*old(policy), old(maze)@, prefix.drop_last(), mid, between));
            assert(swept(*old(policy), old(maze)@, prefix, *policy, maze@));
        }
        i = i + 1;
    }
    assert(cells@.subrange(0, cells@.len() as int) =~= cells@);
}

/// The row-order driver: hands the slots of each row, top to bottom, to
/// `by_row`.
pub fn carve_by_row<P: Policy>(policy: &mut P, maze: &mut Grid, cells: Vec<Option<Cell>>)
    requires
        old(maze).wf(),
        old(policy).ready(old(maze)@.layout),
        cells@ == old(maze)@.layout.cells,
    ensures
        final(maze).wf(),
        final(maze)@.same_layout(old(maze)@),
        final(policy).ready(final(maze)@.layout),
        swept(*old(policy), old(maze)@, cells@, *final(policy), final(maze)@),
{
    let rows = maze.rows();
    let columns = maze.columns();
    let count = cells.len();
    let ghost layout = maze@.layout;
    let mut row: u32 = 0;
    while row < rows
        invariant
            row <= rows,
            rows == layout.rows,
            columns == layout.columns,
            rows * columns <= usize::MAX,
            layout == old(maze)@.layout,
            cells@ == layout.cells,
            maze.wf(),
            maze@.same_layout(old(maze)@),
            policy.ready(maze@.layout),
            swept(
                *old(policy),
                old(maze)@,
                cells@.subrange(0, row * columns),
                *policy,
                maze@,
            ),
        decreases rows - row,
    {
        proof {
            assert(row * columns + columns <= rows * columns) by (nonlinear_arith)
                requires
                    row < rows,
                    0 <= columns,
            ;
            assert((row + 1) * columns == row * columns + columns) by (nonlinear_arith);
            assert(0 <= row * columns) by (nonlinear_arith)
                requires
                    0 <= row,
                    0 <= columns,
            ;
        }
        let start = row as usize * columns as usize;
        let end = start + columns as usize;
        let ghost mid = *policy;
        let ghost between = maze@;
        let slots = slice_subrange(cells.as_slice(), start, end);
        proof {
            assert forall|i: int| 0 <= i < slots@.len() implies (
            #[trigger] slots@[i] matches Some(c) ==> layout.has(c)) by {
                lemma_slot_bound(rows as int, columns as int, row as int, i);
                if slots@[i] is Some {
                    assert(layout.at(row as int, i) == slots@[i]);
                }
            }
        }
        by_row(policy, maze, slots, row);
        proof {
            lemma_swept_joined(
                *old(policy),
                old(maze)@,
                cells@.subrange(0, start as int),
                mid,
                between,
                slots@,
                *policy,
                maze@,
            );
            assert(cells@.subrange(0, start as int) + slots@ =~= cells@.subrange(
                0,
                (row + 1) * columns,
            ));
        }
        row = row + 1;
    }
    assert(cells@.subrange(0, rows * columns) =~= cells@);
}

/// Visits the unmasked slots of one row, left to right.
pub fn by_row<P: Policy>(policy: &mut P, maze: &mut Grid, cells: &[Option<Cell>], row: u32)
    requires
        old(maze).wf(),
        old(policy).ready(old(maze)@.layout),
        forall|i: int|
            0 <= i < cells@.len() ==> (#[trigger] cells@[i] matches Some(c) ==> old(
                maze,
            )@.layout.has(c)),
    ensures
        final(maze).wf(),
        final(maze)@.same_layout(old(maze)@),
        final(policy).ready(final(maze)@.layout),
        swept(*old(policy), old(maze)@, cells@, *final(policy), final(maze)@),
{
    let mut i: usize = 0;
    while i < cells.len()
        invariant
            i <= cells@.len(),
            maze.wf(),
            maze@.same_layout(old(maze)@),
            policy.ready(maze@.layout),
            forall|j: int|
                0 <= j < cells@.len() ==> (#[trigger] cells@[j] matches Some(c) ==> old(
                    maze,
                )@.layout.has(c)),
            swept(*old(policy), old(maze)@, cells@.subrange(0, i as int), *policy, maze@),
        decreases cells@.len() - i,
    {
        let ghost mid = *policy;
        let ghost between = maze@;
        if let Some(cell) = cells[i] {
            policy.by_cell(maze, cell);
        }
        proof {
            let prefix = cells@.subrange(0, i as int + 1);
            assert(prefix.drop_last() =~= cells@.subrange(0, i as int));
            assert(prefix.last() == cells@[i as int]);
            assert(swept(*old(policy), old(maze)@, prefix.drop_last(), mid, between));
            assert(swept(*old(policy), old(maze)@, prefix, *policy, maze@));
        }
        i = i + 1;
    }
    assert(cells@.subrange(0, cells@.len() as int) =~= cells@);
}

/// The policy that carves nothing.
pub struct NoOp {}

impl Policy for NoOp {
    open spec fn ready(&self, layout: Layout) -> bool {
        true
    }

    open spec fn visits(&self, before: GridView, cell: Cell, next: Self, after: GridView) -> bool {
        after == before
    }

    fn by_cell(&mut self, maze: &mut Grid, cell: Cell) {
    }
}

impl Router for NoOp {
    open spec fn carves(&self, before: GridView, next: Self, after: GridView) -> bool {
        after == before
    }

    fn carve(&mut self, maze: &mut Grid, cells: Vec<Option<Cell>>) {
    }
}

} // verus!
