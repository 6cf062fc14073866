//! The binary tree policy: every cell opens one passage, towards one of the
//! preferred directions in which it has a neighbour.

use vstd::prelude::*;
use crate::maze::Cell;
use crate::maze::grid::{Compass, Grid};
use crate::maze::view::{GridView, Layout};
use crate::router::dice::Dice;
use crate::router::{carve_by_cell, swept, Policy, Router};

verus! {

/// The binary tree policy, with the generator it draws from.
pub struct BinaryTree<'a> {
    rng: Dice<'a>,
    preferred: Vec<Compass>,
}

/// The directions among the first `upto` of `preferred` in which `cell` has
/// a neighbour, in their order.
pub open spec fn candidates(
    layout: Layout,
    cell: Cell,
    preferred: Seq<Compass>,
    upto: int,
) -> Seq<Compass>
    decreases upto,
{
    if upto <= 0 {
        Seq::empty()
    } else if layout.neighbour(cell, preferred[upto - 1]) is Some {
        candidates(layout, cell, preferred, upto - 1).push(preferred[upto - 1])
    } else {
        candidates(layout, cell, preferred, upto - 1)
    }
}

/// The direction that a cell takes among its candidates when the generator
/// has drawn `draw`: none of none, the only one of one, and otherwise the
/// one at `draw` modulo their number.
pub open spec fn chosen(candidates: Seq<Compass>, draw: usize) -> Option<Compass> {
    if candidates.len() == 0 {
        None
    } else {
        Some(candidates[draw as int % candidates.len() as int])
    }
}

/// The grid after a cell has opened its passage towards `direction`, if it
/// took one.
pub open spec fn opened(before: GridView, cell: Cell, direction: Option<Compass>) -> GridView {
    match direction {
        Some(d) => before.with_link(cell, d),
        None => before,
    }
}

/// The grid after the unmasked slots of `cells` have been visited in order,
/// when `draws` holds at the place of each slot the value that the
/// generator has drawn for it.
pub open spec fn carved(
    before: GridView,
    preferred: Seq<Compass>,
    cells: Seq<Option<Cell>>,
    draws: Seq<usize>,
) -> GridView
    decreases cells.len(),
{
    if cells.len() == 0 {
        before
    } else {
        let sofar = carved(before, preferred, cells.drop_last(), draws.drop_last());
        match cells.last() {
            Some(cell) => opened(
                sofar,
                cell,
                chosen(
                    candidates(sofar.layout, cell, preferred, preferred.len() as int),
                    draws.last(),
                ),
            ),
            None => sofar,
        }
    }
}

/// The maze that a pass carves is determined by the grid it began with,
/// the preferred directions and the values drawn: equal draws on equal
/// grids carve equal mazes.
pub proof fn lemma_carved_by_draws<'a>(
    start: BinaryTree<'a>,
    before: GridView,
    cells: Seq<Option<Cell>>,
    end: BinaryTree<'a>,
    after: GridView,
)
    requires
        swept(start, before, cells, end, after),
    ensures
        end.preferred() == start.preferred(),
        exists|draws: Seq<usize>|
            draws.len() == cells.len() && after == #[trigger] carved(
                before,
                start.preferred(),
                cells,
                draws,
            ),
    decreases cells.len(),
{
    let preferred = start.preferred();
    if cells.len() == 0 {
        assert(after == carved(before, preferred, cells, Seq::<usize>::empty()));
    } else {
        match cells.last() {
            Some(cell) => {
                let (mid, between) = choose|mid: BinaryTree<'a>, between: GridView|
                    #![trigger mid.visits(between, cell, end, after)]
                    swept(start, before, cells.drop_last(), mid, between) && mid.visits(
                        between,
                        cell,
                        end,
                        after,
                    );
                lemma_carved_by_draws(start, before, cells.drop_last(), mid, between);
                let earlier = choose|draws: Seq<usize>|
                    draws.len() == cells.drop_last().len() && between == #[trigger] carved(
                        before,
                        preferred,
                        cells.drop_last(),
                        draws,
                    );
                let draw = choose|draw: usize|
                    after == opened(
                        between,
                        cell,
                        #[trigger] chosen(
                            candidates(between.layout, cell, preferred, preferred.len() as int),
                            draw,
                        ),
                    );
                let draws = earlier.push(draw);
                assert(draws.drop_last() =~= earlier);
                assert(after == carved(before, preferred, cells, draws));
            },
            None => {
                lemma_carved_by_draws(start, before, cells.drop_last(), end, after);
                let earlier = choose|draws: Seq<usize>|
                    draws.len() == cells.drop_last().len() && after == #[trigger] carved(
                        before,
                        preferred,
                        cells.drop_last(),
                        draws,
                    );
                let draws = earlier.push(0usize);
                assert(draws.drop_last() =~= earlier);
                assert(after == carved(before, preferred, cells, draws));
            },
        }
    }
}

/// The direction that a cell takes among `candidates` for the value `draw`
/// of the generator.
pub fn pick(candidates: &Vec<Compass>, draw: usize) -> (direction: Option<Compass>)
    ensures
        direction == chosen(candidates@, draw),
{
    match candidates.len() {
        0 => None,
        1 => Some(candidates[0]),
        range => Some(candidates[draw % range]),
    }
}

impl<'a> BinaryTree<'a> {
    /// The directions this policy carves towards.
    pub closed spec fn preferred(&self) -> Seq<Compass> {
        self.preferred@
    }

    /// The policy that carves north or east.
    pub fn new_for_compass(rng: Dice<'a>) -> (router: BinaryTree<'a>)
        ensures
            router.preferred() == seq![Compass::North, Compass::East],
    {
        BinaryTree::new(rng, vec![Compass::North, Compass::East])
    }

    /// The policy that carves towards one of `preferred`.
    pub fn new(rng: Dice<'a>, preferred: Vec<Compass>) -> (router: BinaryTree<'a>)
        ensures
            router.preferred() == preferred@,
    {
        BinaryTree { rng, preferred }
    }

    /// The preferred directions in which `cell` has a neighbour.
    pub fn candidates(&self, maze: &Grid, cell: Cell) -> (list: Vec<Compass>)
        requires
            maze.wf(),
            maze@.layout.has(cell),
        ensures
            list@ == candidates(
                maze@.layout,
                cell,
                self.preferred(),
                self.preferred().len() as int,
            ),
    {
        let neighbours = maze.neighbours(&cell);
        let mut list: Vec<Compass> = Vec::new();
        let mut i: usize = 0;
        while i < self.preferred.len()
            invariant
                i <= self.preferred@.len(),
                neighbours@ == maze@.layout.neighbours(cell),
                list@ == candidates(maze@.layout, cell, self.preferred@, i as int),
            decreases self.preferred@.len() - i,
        {
            let direction = self.preferred[i];
            if neighbours.get(&direction).is_some() {
                list.push(direction);
            }
            i = i + 1;
        }
        list
    }

    /// The direction that `cell` opens a passage to. The generator is asked
    /// only where there is a choice.
    fn direction(&mut self, maze: &Grid, cell: Cell) -> (direction: Option<Compass>)
        requires
            maze.wf(),
            maze@.layout.has(cell),
        ensures
            final(self).preferred() == old(self).preferred(),
            exists|draw: usize|
                direction == #[trigger] chosen(
                    candidates(
                        maze@.layout,
                        cell,
                        old(self).preferred(),
                        old(self).preferred().len() as int,
                    ),
                    draw,
                ),
    {
        let directions = self.candidates(maze, cell);
        let draw = if directions.len() < 2 {
            0
        } else {
            self.rng.draw_usize()
        };
        let direction = pick(&directions, draw);
        assert(direction == chosen(directions@, draw));
        direction
    }
}

impl<'a> Policy for BinaryTree<'a> {
    open spec fn ready(&self, layout: Layout) -> bool {
        true
    }

    /// The cell opens the passage towards the candidate that some draw
    /// selects; the preferred directions stay as they are.
    open spec fn visits(&self, before: GridView, cell: Cell, next: Self, after: GridView) -> bool {
        &&& next.preferred() == self.preferred()
        &&& exists|draw: usize|
            after == opened(
                before,
                cell,
                #[trigger] chosen(
                    candidates(
                        before.layout,
                        cell,
                        self.preferred(),
                        self.preferred().len() as int,
                    ),
                    draw,
                ),
            )
    }

    fn by_cell(&mut self, maze: &mut Grid, cell: Cell) {
        if let Some(direction) = self.direction(maze, cell) {
            proof {
                maze@.lemma_with_link(cell, direction);
            }
            maze.link_cell(&cell, direction);
        }
    }
}

impl<'a> Router for BinaryTree<'a> {
    open spec fn carves(&self, before: GridView, next: Self, after: GridView) -> bool {
        swept(*self, before, before.layout.cells, next, after)
    }

    fn carve(&mut self, maze: &mut Grid, cells: Vec<Option<Cell>>) {
        proof {
            assert forall|i: int| 0 <= i < cells@.len() implies (#[trigger] cells@[i] matches Some(
                c,
            ) ==> maze@.layout.has(c)) by {
                maze@.layout.lemma_slot_holds(i);
            }
        }
        carve_by_cell(self, maze, cells);
    }
}

} // verus!
