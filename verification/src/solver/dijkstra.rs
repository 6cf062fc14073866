//! The solver that follows the carved passages outwards from the start,
//! nearest cells first.

use vstd::prelude::*;
use crate::maze::{slot, Cell, Direction};
use crate::maze::grid::{Compass, Grid};
use crate::maze::view::{GridView, Layout};
use crate::solver::{
    distinct, lemma_bucket_single, lemma_mapping, listed, mapping, place, Distances, Solver,
};

verus! {

impl GridView {
    /// True when one carved passage leads from `from` to `to`.
    pub open spec fn passage(self, from: Cell, to: Cell) -> bool {
        exists|d: Compass| #[trigger]
            self.linked(from, d) && self.layout.neighbour(from, d) == Some(to)
    }

    /// True when `path` is a walk along carved passages.
    pub open spec fn walk(self, path: Seq<Cell>) -> bool {
        &&& path.len() > 0
        &&& forall|i: int|
            0 <= i < path.len() - 1 ==> self.passage(#[trigger] path[i], path[i + 1])
    }

    /// True when `path` is a walk from `from` to `to`.
    pub open spec fn route(self, from: Cell, to: Cell, path: Seq<Cell>) -> bool {
        &&& self.walk(path)
        &&& path.first() == from
        &&& path.last() == to
    }

    /// True when some walk of exactly `hops` passages leads from `from` to
    /// `to`.
    pub open spec fn reached_in(self, from: Cell, to: Cell, hops: nat) -> bool {
        exists|path: Seq<Cell>| #[trigger] self.route(from, to, path) && path.len() == hops + 1
    }

    /// True when some walk leads from `from` to `to`.
    pub open spec fn reaches(self, from: Cell, to: Cell) -> bool {
        exists|path: Seq<Cell>| self.route(from, to, path)
    }

    /// Two cells have one shortest distance at most: whatever is the
    /// length of the shortest walk between them is the only such number.
    pub proof fn lemma_shortest_unique(self, from: Cell, to: Cell, one: nat, other: nat)
        requires
            self.shortest(from, to, one),
            self.shortest(from, to, other),
        ensures
            one == other,
    {
        let first = choose|path: Seq<Cell>| #[trigger]
            self.route(from, to, path) && path.len() == one + 1;
        let second = choose|path: Seq<Cell>| #[trigger]
            self.route(from, to, path) && path.len() == other + 1;
        assert(self.route(from, to, first));
        assert(self.route(from, to, second));
    }

    /// True when `hops` is the length of the shortest walk from `from` to
    /// `to`.
    pub open spec fn shortest(self, from: Cell, to: Cell, hops: nat) -> bool {
        &&& self.reached_in(from, to, hops)
        &&& forall|path: Seq<Cell>| #[trigger]
            self.route(from, to, path) ==> path.len() >= hops + 1
    }
}

/// True when `found` holds exactly the cells that a walk along carved
/// passages reaches from `start`, each at the length of its shortest walk.
pub open spec fn measured(grid: GridView, start: Cell, found: Map<Cell, u32>) -> bool {
    &&& forall|cell: Cell| found.contains_key(cell) <==> grid.reaches(start, cell)
    &&& forall|cell: Cell| #[trigger]
        found.contains_key(cell) ==> grid.shortest(start, cell, found[cell] as nat)
}

/// The number of marked slots among the first `upto`.
pub open spec fn marked(seen: Seq<Option<u32>>, upto: int) -> nat
    decreases upto,
{
    if upto <= 0 {
        0
    } else if seen[upto - 1] is Some {
        marked(seen, upto - 1) + 1
    } else {
        marked(seen, upto - 1)
    }
}

/// No more slots are marked than there are.
proof fn lemma_marked_bound(seen: Seq<Option<u32>>, upto: int)
    requires
        0 <= upto <= seen.len(),
    ensures
        marked(seen, upto) <= upto,
    decreases upto,
{
    if upto > 0 {
        lemma_marked_bound(seen, upto - 1);
    }
}

/// Marking one more slot raises the count by one.
proof fn lemma_marked_update(seen: Seq<Option<u32>>, index: int, depth: u32, upto: int)
    requires
        0 <= index < seen.len(),
        0 <= upto <= seen.len(),
        seen[index] is None,
    ensures
        marked(seen.update(index, Some(depth)), upto) == marked(seen, upto) + if index < upto {
            1nat
        } else {
            0nat
        },
    decreases upto,
{
    if upto > 0 {
        lemma_marked_update(seen, index, depth, upto - 1);
    }
}

/// The depth noted for `cell`, if it has been found.
pub open spec fn noted(layout: Layout, seen: Seq<Option<u32>>, cell: Cell) -> Option<u32> {
    seen[slot(layout.columns as int, cell.row as int, cell.column as int)]
}

/// What holds of a search at every moment: the cells found so far are
/// queued once each, in the order of their depths, each with a walk of its
/// depth from the origin.
#[verifier::opaque]
pub open spec fn searching(
    view: GridView,
    origin: Cell,
    seen: Seq<Option<u32>>,
    queue: Seq<(Cell, u32)>,
) -> bool {
    &&& seen.len() == view.layout.cells.len()
    &&& queue.len() == marked(seen, seen.len() as int)
    &&& queue.len() > 0
    &&& queue[0] == (origin, 0u32)
    &&& distinct(queue)
    &&& forall|i: int|
        0 <= i < queue.len() ==> view.layout.has((#[trigger] queue[i]).0) && noted(
            view.layout,
            seen,
            queue[i].0,
        ) == Some(queue[i].1) && view.reached_in(origin, queue[i].0, queue[i].1 as nat)
    &&& forall|cell: Cell|
        view.layout.has(cell) && (#[trigger] noted(view.layout, seen, cell)) is Some ==> listed(
            queue,
            cell,
        )
    &&& forall|i: int, j: int|
        0 <= i <= j < queue.len() ==> (#[trigger] queue[i]).1 <= (#[trigger] queue[j]).1
    &&& forall|i: int| 0 <= i < queue.len() ==> (#[trigger] queue[i]).1 <= i
}

/// True when no queued cell is deeper than one below `depth`.
pub open spec fn near(queue: Seq<(Cell, u32)>, depth: u32) -> bool {
    forall|j: int| 0 <= j < queue.len() ==> (#[trigger] queue[j]).1 <= depth + 1
}

/// True when the passage that leaves `cell` towards `d`, if there is one,
/// leads to a cell found no deeper than one below `depth`.
pub open spec fn covered(
    view: GridView,
    seen: Seq<Option<u32>>,
    cell: Cell,
    depth: u32,
    d: Compass,
) -> bool {
    view.linked(cell, d) ==> (view.layout.neighbour(cell, d) matches Some(to) && (noted(
        view.layout,
        seen,
        to,
    ) matches Some(below) && below <= depth + 1))
}

/// True when every passage that leaves one of the first `head` queued cells
/// is covered.
#[verifier::opaque]
pub open spec fn settled(
    view: GridView,
    seen: Seq<Option<u32>>,
    queue: Seq<(Cell, u32)>,
    head: int,
) -> bool {
    forall|i: int, d: Compass|
        0 <= i < head ==> #[trigger] covered(view, seen, (#[trigger] queue[i]).0, queue[i].1, d)
}

/// Where every passage from a found cell is covered, a walk of `path.len()
/// - 1` passages from the origin ends at a cell found no deeper than that.
proof fn lemma_walk_found(
    view: GridView,
    origin: Cell,
    seen: Seq<Option<u32>>,
    queue: Seq<(Cell, u32)>,
    path: Seq<Cell>,
)
    requires
        view.wf(),
        searching(view, origin, seen, queue),
        settled(view, seen, queue, queue.len() as int),
        view.walk(path),
        path.first() == origin,
    ensures
        view.layout.has(path.last()),
        noted(view.layout, seen, path.last()) matches Some(depth) && depth <= path.len() - 1,
    decreases path.len(),
{
    reveal(searching);
    reveal(settled);
    if path.len() == 1 {
        assert(queue[0].0 == origin);
    } else {
        let shorter = path.drop_last();
        assert(view.walk(shorter)) by {
            assert forall|i: int| 0 <= i < shorter.len() - 1 implies view.passage(
                #[trigger] shorter[i],
                shorter[i + 1],
            ) by {
                assert(view.passage(path[i], path[i + 1]));
            }
        }
        lemma_walk_found(view, origin, seen, queue, shorter);
        let from = shorter.last();
        let to = path.last();
        assert(from == path[path.len() - 2]);
        assert(view.passage(path[path.len() - 2], path[path.len() - 2 + 1]));
        let d = choose|d: Compass| #[trigger]
            view.linked(from, d) && view.layout.neighbour(from, d) == Some(to);
        assert(listed(queue, from));
        let i = place(queue, from);
        assert(covered(view, seen, queue[i].0, queue[i].1, d));
        view.layout.lemma_neighbour_back(from, d);
    }
}

/// At the end of a search the queue maps exactly the cells that a walk
/// reaches, each to the length of its shortest walk.
proof fn lemma_search_done(
    view: GridView,
    origin: Cell,
    seen: Seq<Option<u32>>,
    queue: Seq<(Cell, u32)>,
)
    requires
        view.wf(),
        searching(view, origin, seen, queue),
        settled(view, seen, queue, queue.len() as int),
    ensures
        forall|cell: Cell| mapping(queue).contains_key(cell) <==> view.reaches(origin, cell),
        forall|cell: Cell| #[trigger]
            mapping(queue).contains_key(cell) ==> view.layout.has(cell) && view.shortest(
                origin,
                cell,
                mapping(queue)[cell] as nat,
            ),
{
    reveal(searching);
    assert forall|cell: Cell| #[trigger] mapping(queue).contains_key(cell) implies view.layout.has(
        cell,
    ) && view.shortest(origin, cell, mapping(queue)[cell] as nat) && view.reaches(
        origin,
        cell,
    ) by {
        let i = place(queue, cell);
        lemma_mapping(queue, i);
        let depth = queue[i].1;
        assert(view.reached_in(origin, cell, depth as nat));
        let witness = choose|path: Seq<Cell>| #[trigger]
            view.route(origin, cell, path) && path.len() == depth + 1;
        assert(view.route(origin, cell, witness));
        assert forall|path: Seq<Cell>| #[trigger] view.route(origin, cell, path) implies path.len()
            >= depth + 1 by {
            lemma_walk_found(view, origin, seen, queue, path);
        }
    }
    assert forall|cell: Cell| view.reaches(origin, cell) implies mapping(queue).contains_key(
        cell,
    ) by {
        let path = choose|path: Seq<Cell>| view.route(origin, cell, path);
        lemma_walk_found(view, origin, seen, queue, path);
        assert(listed(queue, cell));
    }
}

/// What a search knows of the queued cell at `head`.
proof fn lemma_queued(
    view: GridView,
    origin: Cell,
    seen: Seq<Option<u32>>,
    queue: Seq<(Cell, u32)>,
    head: int,
)
    requires
        searching(view, origin, seen, queue),
        0 <= head < queue.len(),
    ensures
        view.layout.has(queue[head].0),
        seen.len() == view.layout.cells.len(),
        queue[head].1 < queue.len() <= seen.len(),
        queue.len() == marked(seen, seen.len() as int),
{
    reveal(searching);
    lemma_marked_bound(seen, seen.len() as int);
}

/// A passage from the queued cell at `head` to a cell found before is
/// covered.
proof fn lemma_found_before(
    view: GridView,
    origin: Cell,
    seen: Seq<Option<u32>>,
    queue: Seq<(Cell, u32)>,
    head: int,
    d: Compass,
)
    requires
        view.wf(),
        searching(view, origin, seen, queue),
        0 <= head < queue.len(),
        near(queue, queue[head].1),
        view.layout.neighbour(queue[head].0, d) is Some,
        noted(view.layout, seen, view.layout.neighbour(queue[head].0, d)->0) is Some,
    ensures
        covered(view, seen, queue[head].0, queue[head].1, d),
{
    reveal(searching);
    let to = view.layout.neighbour(queue[head].0, d)->0;
    view.layout.lemma_neighbour_back(queue[head].0, d);
    assert(listed(queue, to));
    let j = place(queue, to);
    assert(queue[j].1 <= queue[head].1 + 1);
}

/// Once every direction from the queued cell at `head` is covered, the
/// first `head + 1` queued cells are settled; and the next one is no
/// shallower, so that the queue stays near it.
proof fn lemma_settled_next(
    view: GridView,
    origin: Cell,
    seen: Seq<Option<u32>>,
    queue: Seq<(Cell, u32)>,
    head: int,
)
    requires
        searching(view, origin, seen, queue),
        settled(view, seen, queue, head),
        0 <= head < queue.len(),
        near(queue, queue[head].1),
        forall|d: Compass| covered(view, seen, queue[head].0, queue[head].1, d),
    ensures
        settled(view, seen, queue, head + 1),
        head + 1 < queue.len() ==> near(queue, queue[head + 1].1),
{
    reveal(searching);
    reveal(settled);
    if head + 1 < queue.len() {
        assert forall|j: int| 0 <= j < queue.len() implies (#[trigger] queue[j]).1 <= queue[head
            + 1].1 + 1 by {
            assert(queue[j].1 <= queue[head].1 + 1);
            assert(queue[head].1 <= queue[head + 1].1);
        }
    }
}

/// The breadth-first solver.
pub struct Dijkstra {}

impl Dijkstra {
    pub fn new() -> (solver: Dijkstra) {
        Dijkstra {  }
    }

    /// Measures `grid` from the cell at `start` along the carved passages.
    pub fn solve(grid: &Grid, start: (u32, u32)) -> (distances: Distances)
        requires
            grid.wf(),
            grid@.layout.at(start.0 as int, start.1 as int) is Some,
            grid@.layout.rows * grid@.layout.columns <= u32::MAX,
        ensures
            distances.wf(),
            distances.at(0) == seq![Cell { row: start.0, column: start.1 }],
            forall|cell: Cell| distances@.contains_key(cell) ==> grid@.layout.has(cell),
            measured(grid@, Cell { row: start.0, column: start.1 }, distances@),
    {
        let solver = Dijkstra::new();
        Solver::solve(&solver, grid, start)
    }

    /// Expands the search from one queued cell: every cell that a passage
    /// leads to, and that was not found before, is noted one deeper and
    /// queued.
    fn frontier(
        &self,
        seen: &mut Vec<Option<u32>>,
        queue: &mut Vec<(Cell, u32)>,
        maze: &Grid,
        head: usize,
        Ghost(origin): Ghost<Cell>,
    )
        requires
            maze.wf(),
            maze@.layout.rows * maze@.layout.columns <= u32::MAX,
            searching(maze@, origin, old(seen)@, old(queue)@),
            settled(maze@, old(seen)@, old(queue)@, head as int),
            head < old(queue)@.len(),
            near(old(queue)@, old(queue)@[head as int].1),
        ensures
            searching(maze@, origin, final(seen)@, final(queue)@),
            settled(maze@, final(seen)@, final(queue)@, head as int + 1),
            final(queue)@.len() >= old(queue)@.len(),
            head + 1 < final(queue)@.len() ==> near(final(queue)@, final(queue)@[head + 1].1),
    {
        let (cell, depth) = queue[head];
        let ghost view = maze@;
        proof {
            lemma_queued(view, origin, seen@, queue@, head as int);
        }
        let links = maze.links(&cell);
        let neighbours = maze.neighbours(&cell);
        let directions = Compass::all();
        let mut i: usize = 0;
        while i < directions.len()
            invariant
                i <= directions@.len(),
                directions@ == Compass::every(),
                maze.wf(),
                view == maze@,
                view.layout.rows * view.layout.columns <= u32::MAX,
                links@ == view.links[cell],
                neighbours@ == view.layout.neighbours(cell),
                view.layout.has(cell),
                head < queue@.len(),
                queue@[head as int] == (cell, depth),
                queue@.len() >= old(queue)@.len(),
                searching(view, origin, seen@, queue@),
                settled(view, seen@, queue@, head as int),
                near(queue@, depth),
                forall|d: Compass| d.rank() < i ==> covered(view, seen@, cell, depth, d),
            decreases directions@.len() - i,
        {
            let direction = directions[i];
            assert(direction.rank() == i);
            assert(forall|d: Compass| d.rank() == i ==> d == direction);
            if links.contains(&direction) {
                assert(view.linked(cell, direction));
                assert(view.paired(cell, direction));
                if let Some(found) = neighbours.get(&direction) {
                    let to = *found;
                    proof {
                        view.layout.lemma_neighbour_back(cell, direction);
                        view.layout.lemma_has_slot(to);
                        lemma_queued(view, origin, seen@, queue@, head as int);
                    }
                    let index = maze.index_of(&to);
                    if seen[index].is_none() {
                        let ghost seen_before = seen@;
                        let ghost queue_before = queue@;
                        seen[index] = Some(depth + 1);
                        queue.push((to, depth + 1));
                        proof {
                            lemma_marked_update(
                                seen_before,
                                index as int,
                                (depth + 1) as u32,
                                seen_before.len() as int,
                            );
                            lemma_extended(
                                view,
                                origin,
                                seen_before,
                                queue_before,
                                head as int,
                                direction,
                            );
                        }
                    } else {
                        proof {
                            lemma_found_before(
                                view,
                                origin,
                                seen@,
                                queue@,
                                head as int,
                                direction,
                            );
                        }
                    }
                }
            }
            i = i + 1;
        }
        proof {
            assert forall|d: Compass| covered(view, seen@, cell, depth, d) by {
                assert(d.rank() < 4);
            }
            lemma_settled_next(view, origin, seen@, queue@, head as int);
        }
    }
}

/// Noting and queueing the cell behind a passage from the queued cell at
/// `head`, one deeper, keeps a search in order.
proof fn lemma_extended(
    view: GridView,
    origin: Cell,
    seen: Seq<Option<u32>>,
    queue: Seq<(Cell, u32)>,
    head: int,
    d: Compass,
)
    requires
        view.wf(),
        searching(view, origin, seen, queue),
        settled(view, seen, queue, head),
        0 <= head < queue.len(),
        view.linked(queue[head].0, d),
        view.layout.neighbour(queue[head].0, d) is Some,
        noted(view.layout, seen, view.layout.neighbour(queue[head].0, d)->0) is None,
        queue[head].1 < u32::MAX,
        near(queue, queue[head].1),
        queue.len() + 1 == marked(
            seen.update(
                slot(
                    view.layout.columns as int,
                    view.layout.neighbour(queue[head].0, d)->0.row as int,
                    view.layout.neighbour(queue[head].0, d)->0.column as int,
                ),
                Some((queue[head].1 + 1) as u32),
            ),
            seen.len() as int,
        ),
    ensures
        ({
            let to = view.layout.neighbour(queue[head].0, d)->0;
            let deeper = (queue[head].1 + 1) as u32;
            let index = slot(view.layout.columns as int, to.row as int, to.column as int);
            let seen_after = seen.update(index, Some(deeper));
            let queue_after = queue.push((to, deeper));
            &&& searching(view, origin, seen_after, queue_after)
            &&& settled(view, seen_after, queue_after, head)
            &&& near(queue_after, queue[head].1)
            &&& forall|k: Compass|
                covered(view, seen, queue[head].0, queue[head].1, k) ==> covered(
                    view,
                    seen_after,
                    queue[head].0,
                    queue[head].1,
                    k,
                )
        }),
{
    reveal(searching);
    reveal(settled);
    let cell = queue[head].0;
    let depth = queue[head].1;
    let to = view.layout.neighbour(cell, d)->0;
    let deeper = (depth + 1) as u32;
    let index = slot(view.layout.columns as int, to.row as int, to.column as int);
    let seen_after = seen.update(index, Some(deeper));
    let queue_after = queue.push((to, deeper));
    view.layout.lemma_neighbour_back(cell, d);
    view.layout.lemma_has_slot(to);
    // Every other cell of the grid keeps what was noted for it.
    assert forall|other: Cell| view.layout.has(other) && other != to implies noted(
        view.layout,
        seen_after,
        other,
    ) == noted(view.layout, seen, other) by {
        view.layout.lemma_has_slot(other);
        if slot(view.layout.columns as int, other.row as int, other.column as int) == index {
            crate::maze::view::lemma_slot_unique(
                view.layout.columns as int,
                other.row as int,
                other.column as int,
                to.row as int,
                to.column as int,
            );
        }
    }
    // The new cell has a walk of its depth: the walk of `cell`, one passage longer.
    assert(view.reached_in(origin, to, deeper as nat)) by {
        let path = choose|path: Seq<Cell>| #[trigger]
            view.route(origin, cell, path) && path.len() == depth + 1;
        let longer = path.push(to);
        assert(view.passage(cell, to));
        assert forall|i: int| 0 <= i < longer.len() - 1 implies view.passage(
            #[trigger] longer[i],
            longer[i + 1],
        ) by {
            if i < path.len() - 1 {
                assert(view.passage(path[i], path[i + 1]));
            }
        }
        assert(view.route(origin, to, longer));
    }
    assert forall|i: int| 0 <= i < queue.len() implies (#[trigger] queue[i]).0 != to by {
        assert(noted(view.layout, seen, queue[i].0) is Some);
    }
    assert(distinct(queue_after));
    assert forall|i: int| 0 <= i < queue_after.len() implies view.layout.has(
        (#[trigger] queue_after[i]).0,
    ) && noted(view.layout, seen_after, queue_after[i].0) == Some(queue_after[i].1)
        && view.reached_in(origin, queue_after[i].0, queue_after[i].1 as nat) by {
        if i < queue.len() {
            assert(queue_after[i] == queue[i]);
            assert(queue[i].0 != to);
        }
    }
    assert forall|other: Cell|
        view.layout.has(other) && (#[trigger] noted(view.layout, seen_after, other))
            is Some implies listed(queue_after, other) by {
        if other == to {
            assert(queue_after[queue.len() as int].0 == to);
        } else {
            assert(noted(view.layout, seen, other) is Some);
            assert(listed(queue, other));
            let p = place(queue, other);
            assert(queue_after[p].0 == other);
        }
    }
    assert forall|i: int, j: int| 0 <= i <= j < queue_after.len() implies (
    #[trigger] queue_after[i]).1 <= (#[trigger] queue_after[j]).1 by {
        if j < queue.len() {
            assert(queue_after[i] == queue[i] && queue_after[j] == queue[j]);
        } else if i < queue.len() {
            assert(queue_after[i] == queue[i]);
        }
    }
    assert(queue_after[0] == queue[0]);
    assert forall|i: int| 0 <= i < queue_after.len() implies (#[trigger] queue_after[i]).1
        <= i by {
        if i < queue.len() {
            assert(queue_after[i] == queue[i]);
        }
    }
    assert forall|j: int| 0 <= j < queue_after.len() implies (#[trigger] queue_after[j]).1
        <= depth + 1 by {
        if j < queue.len() {
            assert(queue_after[j] == queue[j]);
        }
    }
    assert forall|i: int, k: Compass| 0 <= i < head implies #[trigger] covered(
        view,
        seen_after,
        (#[trigger] queue_after[i]).0,
        queue_after[i].1,
        k,
    ) by {
        assert(queue_after[i] == queue[i]);
        assert(covered(view, seen, queue[i].0, queue[i].1, k));
        if view.linked(queue[i].0, k) {
            let next = view.layout.neighbour(queue[i].0, k)->0;
            view.layout.lemma_neighbour_back(queue[i].0, k);
            assert(next != to);
        }
    }
    assert forall|k: Compass| covered(view, seen, cell, depth, k) implies covered(
        view,
        seen_after,
        cell,
        depth,
        k,
    ) by {
        if view.linked(cell, k) {
            let next = view.layout.neighbour(cell, k)->0;
            view.layout.lemma_neighbour_back(cell, k);
            assert(next != to);
        }
    }
}

impl Solver for Dijkstra {
    /// Exactly the cells that a walk along carved passages reaches from the
    /// start are found, each at the length of its shortest walk.
    open spec fn solves(&self, grid: GridView, start: Cell, found: Map<Cell, u32>) -> bool {
        measured(grid, start, found)
    }

    fn solve(&self, maze: &Grid, start: (u32, u32)) -> (distances: Distances) {
        let origin = match maze.cell(start.0, start.1) {
            Some(cell) => *cell,
            None => vstd::pervasive::unreached(),
        };
        let ghost view = maze@;
        let count = maze.slots().len();
        let mut seen: Vec<Option<u32>> = Vec::new();
        let mut k: usize = 0;
        while k < count
            invariant
                k <= count,
                seen@.len() == k,
                forall|j: int| 0 <= j < k ==> (#[trigger] seen@[j]) is None,
            decreases count - k,
        {
            seen.push(None);
            k = k + 1;
        }
        let mut queue: Vec<(Cell, u32)> = Vec::new();
        let index = maze.index_of(&origin);
        let ghost blank = seen@;
        seen[index] = Some(0);
        queue.push((origin, 0));
        proof {
            lemma_unmarked(blank, blank.len() as int);
            lemma_marked_update(blank, index as int, 0, blank.len() as int);
            assert(view.route(origin, origin, seq![origin]));
            assert(view.reached_in(origin, origin, 0));
            assert forall|cell: Cell|
                view.layout.has(cell) && (#[trigger] noted(view.layout, seen@, cell))
                    is Some implies listed(queue@, cell) by {
                view.layout.lemma_has_slot(cell);
                crate::maze::view::lemma_slot_unique(
                    view.layout.columns as int,
                    cell.row as int,
                    cell.column as int,
                    origin.row as int,
                    origin.column as int,
                );
                assert(queue@[0].0 == cell);
            }
        }
        proof {
            reveal(searching);
            reveal(settled);
            assert(searching(view, origin, seen@, queue@));
            assert(settled(view, seen@, queue@, 0));
        }
        let mut head: usize = 0;
        while head < queue.len()
            invariant
                maze.wf(),
                view == maze@,
                view.layout.rows * view.layout.columns <= u32::MAX,
                head <= queue@.len(),
                searching(view, origin, seen@, queue@),
                settled(view, seen@, queue@, head as int),
                head < queue@.len() ==> near(queue@, queue@[head as int].1),
            decreases view.layout.cells.len() - head,
        {
            proof {
                lemma_queued(view, origin, seen@, queue@, head as int);
            }
            self.frontier(&mut seen, &mut queue, maze, head, Ghost(origin));
            proof {
                lemma_queued(view, origin, seen@, queue@, head as int);
            }
            head = head + 1;
        }
        proof {
            lemma_search_done(view, origin, seen@, queue@);
            reveal(searching);
            assert forall|i: int| 0 <= i < queue@.len() implies ((#[trigger] queue@[i]).1 == 0
                <==> i == 0) by {
                if queue@[i].1 == 0 && i != 0 {
                    // A walk of no passage ends where it began.
                    let path = choose|path: Seq<Cell>| #[trigger]
                        view.route(origin, queue@[i].0, path) && path.len() == 0 + 1;
                    assert(path.first() == path.last());
                    assert(queue@[0].0 != queue@[i].0);
                }
            }
            lemma_bucket_single(queue@, 0, queue@.len() as int, 0);
        }
        Distances::new(queue)
    }
}

/// Of slots that are all unmarked none is counted.
proof fn lemma_unmarked(seen: Seq<Option<u32>>, upto: int)
    requires
        0 <= upto <= seen.len(),
        forall|j: int| 0 <= j < seen.len() ==> (#[trigger] seen[j]) is None,
    ensures
        marked(seen, upto) == 0,
    decreases upto,
{
    if upto > 0 {
        lemma_unmarked(seen, upto - 1);
    }
}

} // verus!
