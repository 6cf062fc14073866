//! The sidewinder policy: cells of a row are joined sideways into runs, and
//! each run opens one passage upwards when it is closed.

use vstd::prelude::*;
use crate::maze::Cell;
use crate::maze::grid::{Compass, Grid};
use crate::maze::view::{GridView, Layout};
use crate::router::dice::Dice;
use crate::router::{carve_by_row, swept, Policy, Router};

verus! {

/// The sidewinder policy, with the generator it draws from and the run it
/// is gathering.
pub struct SideWinder<'a> {
    rng: Dice<'a>,
    directions: (Compass, Compass),
    run: Vec<Cell>,
}

/// True when the run ends at `cell`: always where `cell` has no neighbour
/// to the side, and on an even `coin` where it has one above.
pub open spec fn closes(layout: Layout, cell: Cell, top: Compass, side: Compass, coin: u16) -> bool {
    layout.neighbour(cell, side) is None || (layout.neighbour(cell, top) is Some && coin % 2
        == 0)
}

/// The member of a run that opens the passage upwards when the generator
/// has drawn `draw`.
pub open spec fn member(run: Seq<Cell>, draw: usize) -> Cell {
    run[draw as int % run.len() as int]
}

/// The grid and the run after `cell` has joined `run`, when the generator
/// has drawn `coin` for the closing and `draw` for the member: a closed run
/// links its chosen member upwards and is emptied, an open one links `cell`
/// sideways and goes on.
pub open spec fn wound(
    before: GridView,
    run: Seq<Cell>,
    cell: Cell,
    directions: (Compass, Compass),
    coin: u16,
    draw: usize,
) -> (GridView, Seq<Cell>) {
    let joined = run.push(cell);
    if closes(before.layout, cell, directions.0, directions.1, coin) {
        (before.with_link(member(joined, draw), directions.0), Seq::empty())
    } else {
        (before.with_link(cell, directions.1), joined)
    }
}

/// The grid and the run after the unmasked slots of `cells` have been
/// visited in order, when `draws` holds at the place of each slot the two
/// values that the generator has drawn for it.
pub open spec fn wound_along(
    before: GridView,
    run: Seq<Cell>,
    directions: (Compass, Compass),
    cells: Seq<Option<Cell>>,
    draws: Seq<(u16, usize)>,
) -> (GridView, Seq<Cell>)
    decreases cells.len(),
{
    if cells.len() == 0 {
        (before, run)
    } else {
        let sofar = wound_along(before, run, directions, cells.drop_last(), draws.drop_last());
        match cells.last() {
            Some(cell) => wound(sofar.0, sofar.1, cell, directions, draws.last().0, draws.last().1),
            None => sofar,
        }
    }
}

/// The maze that a pass carves, and the run it is left with, are determined
/// by the grid and the run it began with, the directions and the values
/// drawn: equal draws on equal grids carve equal mazes.
pub proof fn lemma_wound_by_draws<'a>(
    start: SideWinder<'a>,
    before: GridView,
    cells: Seq<Option<Cell>>,
    end: SideWinder<'a>,
    after: GridView,
)
    requires
        swept(start, before, cells, end, after),
    ensures
        end.directions() == start.directions(),
        exists|draws: Seq<(u16, usize)>|
            draws.len() == cells.len() && (after, end.run()) == #[trigger] wound_along(
                before,
                start.run(),
                start.directions(),
                cells,
                draws,
            ),
    decreases cells.len(),
{
    let directions = start.directions();
    if cells.len() == 0 {
        assert((after, end.run()) == wound_along(
            before,
            start.run(),
            directions,
            cells,
            Seq::<(u16, usize)>::empty(),
        ));
    } else {
        match cells.last() {
            Some(cell) => {
                let (mid, between) = choose|mid: SideWinder<'a>, between: GridView|
                    #![trigger mid.visits(between, cell, end, after)]
                    swept(start, before, cells.drop_last(), mid, between) && mid.visits(
                        between,
                        cell,
                        end,
                        after,
                    );
                lemma_wound_by_draws(start, before, cells.drop_last(), mid, between);
                let earlier = choose|draws: Seq<(u16, usize)>|
                    draws.len() == cells.drop_last().len() && (between, mid.run())
                        == #[trigger] wound_along(
                        before,
                        start.run(),
                        directions,
                        cells.drop_last(),
                        draws,
                    );
                let (coin, draw) = choose|coin: u16, draw: usize|
                    (after, end.run()) == #[trigger] wound(
                        between,
                        mid.run(),
                        cell,
                        directions,
                        coin,
                        draw,
                    );
                let draws = earlier.push((coin, draw));
                assert(draws.drop_last() =~= earlier);
                assert((after, end.run()) == wound_along(
                    before,
                    start.run(),
                    directions,
                    cells,
                    draws,
                ));
            },
            None => {
                lemma_wound_by_draws(start, before, cells.drop_last(), end, after);
                let earlier = choose|draws: Seq<(u16, usize)>|
                    draws.len() == cells.drop_last().len() && (after, end.run())
                        == #[trigger] wound_along(
                        before,
                        start.run(),
                        directions,
                        cells.drop_last(),
                        draws,
                    );
                let draws = earlier.push((0u16, 0usize));
                assert(draws.drop_last() =~= earlier);
                assert((after, end.run()) == wound_along(
                    before,
                    start.run(),
                    directions,
                    cells,
                    draws,
                ));
            },
        }
    }
}

/// The first `upto` slots of the row `row` of a layout.
pub open spec fn row_slots(layout: Layout, row: int, upto: int) -> Seq<Option<Cell>> {
    Seq::new(upto as nat, |column: int| layout.at(row, column))
}

/// A run does not outlast its row: where runs grow east, a traversal of the
/// slots of a row up to a masked slot, or up to the end of the row, leaves
/// the run empty as soon as it has visited a cell.
pub proof fn lemma_run_ends_with_row<'a>(
    start: SideWinder<'a>,
    before: GridView,
    row: int,
    upto: int,
    end: SideWinder<'a>,
    after: GridView,
)
    requires
        before.layout.wf(),
        start.directions().1 == Compass::East,
        0 <= row < before.layout.rows,
        0 <= upto <= before.layout.columns,
        before.layout.at(row, upto) is None,
        swept(start, before, row_slots(before.layout, row, upto), end, after),
    ensures
        after.layout == before.layout,
        end.directions() == start.directions(),
        end.run() == if exists|column: int|
            0 <= column < upto && (#[trigger] before.layout.at(row, column)) is Some {
            Seq::<Cell>::empty()
        } else {
            start.run()
        },
    decreases upto,
{
    let layout = before.layout;
    let slots = row_slots(layout, row, upto);
    if upto > 0 {
        assert(slots.drop_last() =~= row_slots(layout, row, upto - 1));
        assert(slots.last() == layout.at(row, upto - 1));
        match slots.last() {
            Some(cell) => {
                let (mid, between) = choose|mid: SideWinder<'a>, between: GridView|
                    #![trigger mid.visits(between, cell, end, after)]
                    swept(start, before, slots.drop_last(), mid, between) && mid.visits(
                        between,
                        cell,
                        end,
                        after,
                    );
                lemma_wound_layout(start, before, slots.drop_last(), mid, between);
                assert(cell.row == row && cell.column == upto - 1);
                assert(layout.neighbour(cell, Compass::East) == layout.at(row, upto));
            },
            None => {
                lemma_run_ends_with_row(start, before, row, upto - 1, end, after);
                assert forall|column: int| 0 <= column < upto && (#[trigger] layout.at(
                    row,
                    column,
                )) is Some implies column < upto - 1 by {}
            },
        }
    }
}

/// A traversal changes neither the layout nor the directions.
pub proof fn lemma_wound_layout<'a>(
    start: SideWinder<'a>,
    before: GridView,
    cells: Seq<Option<Cell>>,
    end: SideWinder<'a>,
    after: GridView,
)
    requires
        swept(start, before, cells, end, after),
    ensures
        after.layout == before.layout,
        end.directions() == start.directions(),
    decreases cells.len(),
{
    if cells.len() > 0 {
        match cells.last() {
            Some(cell) => {
                let (mid, between) = choose|mid: SideWinder<'a>, between: GridView|
                    #![trigger mid.visits(between, cell, end, after)]
                    swept(start, before, cells.drop_last(), mid, between) && mid.visits(
                        between,
                        cell,
                        end,
                        after,
                    );
                lemma_wound_layout(start, before, cells.drop_last(), mid, between);
            },
            None => {
                lemma_wound_layout(start, before, cells.drop_last(), end, after);
            },
        }
    }
}

/// Whether a run ends at a cell, from what the cell has around it and the
/// value `coin` of the generator.
pub fn closing(has_side: bool, has_top: bool, coin: u16) -> (close: bool)
    ensures
        close == (!has_side || (has_top && coin % 2 == 0)),
{
    !has_side || (has_top && coin % 2 == 0)
}

/// The member of `run` that the value `draw` of the generator selects.
pub fn pick_member(run: &Vec<Cell>, draw: usize) -> (cell: Cell)
    requires
        run@.len() > 0,
    ensures
        cell == member(run@, draw),
{
    run[draw % run.len()]
}

impl<'a> SideWinder<'a> {
    /// The direction of the passages that close a run, then the direction
    /// in which a run grows.
    pub closed spec fn directions(&self) -> (Compass, Compass) {
        self.directions
    }

    /// The cells of the run gathered so far.
    pub closed spec fn run(&self) -> Seq<Cell> {
        self.run@
    }

    /// The policy whose runs grow east and close north.
    pub fn new_for_compass(rng: Dice<'a>) -> (router: SideWinder<'a>)
        ensures
            router.directions() == (Compass::North, Compass::East),
            router.run() == Seq::<Cell>::empty(),
    {
        SideWinder::new(rng, (Compass::North, Compass::East))
    }

    /// The policy whose runs grow towards `directions.1` and close towards
    /// `directions.0`.
    pub fn new(rng: Dice<'a>, directions: (Compass, Compass)) -> (router: SideWinder<'a>)
        ensures
            router.directions() == directions,
            router.run() == Seq::<Cell>::empty(),
    {
        SideWinder { rng, directions, run: Vec::new() }
    }

    /// Decides whether the run ends at `cell`. The generator is asked only
    /// where the cell has a neighbour on both sides in question.
    fn close_row(&mut self, cell: &Cell, maze: &Grid, top: &Compass, side: &Compass) -> (close:
        bool)
        requires
            maze.wf(),
            maze@.layout.has(*cell),
        ensures
            final(self).directions() == old(self).directions(),
            final(self).run() == old(self).run(),
            exists|coin: u16| close == #[trigger] closes(maze@.layout, *cell, *top, *side, coin),
    {
        let neighbours = maze.neighbours(cell);
        let has_side = neighbours.contains_key(side);
        let has_top = neighbours.contains_key(top);
        let coin = if has_side && has_top {
            self.rng.draw_u16()
        } else {
            0
        };
        let close = closing(has_side, has_top, coin);
        assert(close == closes(maze@.layout, *cell, *top, *side, coin));
        close
    }

    /// Draws one member of the run.
    fn random_cell(&mut self) -> (cell: Cell)
        requires
            old(self).run().len() > 0,
        ensures
            final(self).directions() == old(self).directions(),
            final(self).run() == old(self).run(),
            exists|draw: usize| cell == #[trigger] member(old(self).run(), draw),
    {
        let draw = self.rng.draw_usize();
        let cell = pick_member(&self.run, draw);
        assert(cell == member(self.run@, draw));
        cell
    }
}

impl<'a> Policy for SideWinder<'a> {
    /// Every cell of the run is a cell of the grid.
    open spec fn ready(&self, layout: Layout) -> bool {
        forall|i: int| 0 <= i < self.run().len() ==> layout.has(#[trigger] self.run()[i])
    }

    /// The cell joins the run, and the grid and the run become what some
    /// pair of draws makes of them; the directions stay as they are.
    open spec fn visits(&self, before: GridView, cell: Cell, next: Self, after: GridView) -> bool {
        &&& next.directions() == self.directions()
        &&& exists|coin: u16, draw: usize|
            (after, next.run()) == #[trigger] wound(
                before,
                self.run(),
                cell,
                self.directions(),
                coin,
                draw,
            )
    }

    fn by_cell(&mut self, maze: &mut Grid, cell: Cell) {
        let (top, side) = self.directions;
        self.run.push(cell);
        if self.close_row(&cell, maze, &top, &side) {
            let ghost coin = choose|coin: u16|
                true == #[trigger] closes(maze@.layout, cell, top, side, coin);
            let chosen = self.random_cell();
            let ghost draw = choose|draw: usize| chosen == #[trigger] member(self.run@, draw);
            proof {
                let k = draw as int % self.run@.len() as int;
                assert(0 <= k < self.run@.len());
                if k < old(self).run().len() {
                    assert(self.run@[k] == old(self).run()[k]);
                }
                assert(maze@.layout.has(chosen));
                maze@.lemma_with_link(chosen, top);
            }
            maze.link_cell(&chosen, top);
            self.run.clear();
            proof {
                assert(self.run@ =~= Seq::<Cell>::empty());
                assert((maze@, self.run()) == wound(
                    old(maze)@,
                    old(self).run(),
                    cell,
                    old(self).directions(),
                    coin,
                    draw,
                ));
            }
        } else {
            let ghost coin = choose|coin: u16|
                false == #[trigger] closes(maze@.layout, cell, top, side, coin);
            proof {
                maze@.lemma_with_link(cell, side);
            }
            maze.link_cell(&cell, side);
            proof {
                assert((maze@, self.run()) == wound(
                    old(maze)@,
                    old(self).run(),
                    cell,
                    old(self).directions(),
                    coin,
                    0usize,
                ));
            }
        }
    }
}

impl<'a> Router for SideWinder<'a> {
    open spec fn carves(&self, before: GridView, next: Self, after: GridView) -> bool {
        swept(*self, before, before.layout.cells, next, after)
    }

    fn carve(&mut self, maze: &mut Grid, cells: Vec<Option<Cell>>) {
        carve_by_row(self, maze, cells);
    }
}

} // verus!
