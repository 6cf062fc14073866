//! Distances from a start cell, and the solvers that compute them.

pub mod dijkstra;

use vstd::prelude::*;
use std::collections::HashMap;
use crate::maze::Cell;
use crate::maze::grid::Grid;
use crate::maze::view::GridView;
use crate::util::math::{diff, gap};

verus! {

broadcast use vstd::std_specs::hash::group_hash_axioms;

/// True when no cell occurs twice among `entries`.
pub open spec fn distinct(entries: Seq<(Cell, u32)>) -> bool {
    forall|i: int, j: int|
        0 <= i < j < entries.len() ==> (#[trigger] entries[i]).0 != (#[trigger] entries[j]).0
}

/// The cells at `distance` among the first `upto` of `entries`, in their
/// order.
pub open spec fn bucket(entries: Seq<(Cell, u32)>, distance: u32, upto: int) -> Seq<Cell>
    decreases upto,
{
    if upto <= 0 {
        Seq::empty()
    } else if entries[upto - 1].1 == distance {
        bucket(entries, distance, upto - 1).push(entries[upto - 1].0)
    } else {
        bucket(entries, distance, upto - 1)
    }
}

/// True when `cell` occurs among `entries`.
pub open spec fn listed(entries: Seq<(Cell, u32)>, cell: Cell) -> bool {
    exists|i: int| 0 <= i < entries.len() && (#[trigger] entries[i]).0 == cell
}

/// The place of `cell` among `entries`.
pub open spec fn place(entries: Seq<(Cell, u32)>, cell: Cell) -> int {
    choose|i: int| 0 <= i < entries.len() && (#[trigger] entries[i]).0 == cell
}

/// The mapping from cell to distance that `entries` list.
pub open spec fn mapping(entries: Seq<(Cell, u32)>) -> Map<Cell, u32> {
    Map::new(|cell: Cell| listed(entries, cell), |cell: Cell| entries[place(entries, cell)].1)
}

/// The largest distance among the first `upto` of `entries`; 0 of none.
pub open spec fn largest(entries: Seq<(Cell, u32)>, upto: int) -> u32
    decreases upto,
{
    if upto <= 0 {
        0
    } else if entries[upto - 1].1 > largest(entries, upto - 1) {
        entries[upto - 1].1
    } else {
        largest(entries, upto - 1)
    }
}

/// No distance among the first `upto` entries exceeds the largest.
pub proof fn lemma_largest(entries: Seq<(Cell, u32)>, upto: int, index: int)
    requires
        0 <= index < upto <= entries.len(),
    ensures
        entries[index].1 <= largest(entries, upto),
    decreases upto,
{
    if index < upto - 1 {
        lemma_largest(entries, upto - 1, index);
    }
}

/// A bucket holds exactly the listed cells at its distance.
pub proof fn lemma_bucket_members(entries: Seq<(Cell, u32)>, distance: u32, upto: int)
    requires
        0 <= upto <= entries.len(),
    ensures
        forall|cell: Cell|
            bucket(entries, distance, upto).contains(cell) <==> exists|i: int|
                0 <= i < upto && #[trigger] entries[i] == (cell, distance),
    decreases upto,
{
    if upto > 0 {
        lemma_bucket_members(entries, distance, upto - 1);
        let before = bucket(entries, distance, upto - 1);
        let now = bucket(entries, distance, upto);
        assert forall|cell: Cell| now.contains(cell) <==> exists|i: int|
            0 <= i < upto && #[trigger] entries[i] == (cell, distance) by {
            if now.contains(cell) {
                let k = choose|k: int| 0 <= k < now.len() && now[k] == cell;
                if entries[upto - 1].1 == distance && k == now.len() - 1 {
                    assert(entries[upto - 1] == (cell, distance));
                } else {
                    assert(before[k] == cell);
                    assert(before.contains(cell));
                }
            }
            if exists|i: int| 0 <= i < upto && #[trigger] entries[i] == (cell, distance) {
                let i = choose|i: int| 0 <= i < upto && #[trigger] entries[i] == (cell, distance);
                if i == upto - 1 {
                    assert(now[now.len() - 1] == cell);
                } else {
                    assert(before.contains(cell));
                    let k = choose|k: int| 0 <= k < before.len() && before[k] == cell;
                    assert(now[k] == cell);
                }
            }
        }
    }
}

/// Where no cell is listed twice, the mapping sends each listed cell to the
/// distance listed with it.
pub proof fn lemma_mapping(entries: Seq<(Cell, u32)>, index: int)
    requires
        distinct(entries),
        0 <= index < entries.len(),
    ensures
        mapping(entries).contains_key(entries[index].0),
        mapping(entries)[entries[index].0] == entries[index].1,
        place(entries, entries[index].0) == index,
{
    let cell = entries[index].0;
    assert(listed(entries, cell));
    let p = place(entries, cell);
    if p < index {
        assert(entries[p].0 != entries[index].0);
    } else if index < p {
        assert(entries[index].0 != entries[p].0);
    }
}

/// Where one entry alone is at `distance`, its cell is the whole bucket.
pub proof fn lemma_bucket_single(entries: Seq<(Cell, u32)>, distance: u32, upto: int, only: int)
    requires
        0 <= only < entries.len(),
        0 <= upto <= entries.len(),
        forall|i: int| 0 <= i < entries.len() ==> ((#[trigger] entries[i]).1 == distance <==> i == only),
    ensures
        bucket(entries, distance, upto) == if upto > only {
            seq![entries[only].0]
        } else {
            Seq::<Cell>::empty()
        },
    decreases upto,
{
    if upto > 0 {
        lemma_bucket_single(entries, distance, upto - 1, only);
        assert(entries[upto - 1].1 == distance <==> upto - 1 == only);
        if upto - 1 == only {
            assert(bucket(entries, distance, upto) =~= seq![entries[only].0]);
        }
    }
}

/// The distances that a solver has found, by cell and by distance.
#[derive(Debug)]
pub struct Distances {
    cells: Vec<(Cell, u32)>,
    distances: HashMap<u32, Vec<Cell>>,
}

impl Distances {
    /// The cells with their distances, in the order in which they were given.
    pub closed spec fn entries(&self) -> Seq<(Cell, u32)> {
        self.cells@
    }

    /// No cell is listed twice, and the cells are filed under their
    /// distances in the order of the entries.
    pub closed spec fn wf(&self) -> bool {
        &&& distinct(self.cells@)
        &&& filed(self.cells@, self.cells@.len() as int, self.distances@)
    }

    /// In well-formed distances no cell is listed twice.
    pub proof fn lemma_distinct(&self)
        requires
            self.wf(),
        ensures
            distinct(self.entries()),
    {
    }

    /// The cells at `distance`, in the order of the entries.
    pub open spec fn at(&self, distance: u32) -> Seq<Cell> {
        bucket(self.entries(), distance, self.entries().len() as int)
    }

    /// Files `cells` by cell and by distance.
    pub fn new(cells: Vec<(Cell, u32)>) -> (distances: Distances)
        requires
            distinct(cells@),
        ensures
            distances.wf(),
            distances.entries() == cells@,
    {
        let distances = Distances::build_distances(&cells);
        Distances { cells, distances }
    }

    /// Files the cells of `cells` under their distances.
    pub fn build_distances(cells: &Vec<(Cell, u32)>) -> (distances: HashMap<u32, Vec<Cell>>)
        ensures
            filed(cells@, cells@.len() as int, distances@),
    {
        let mut distances: HashMap<u32, Vec<Cell>> = HashMap::new();
        let mut i: usize = 0;
        while i < cells.len()
            invariant
                i <= cells@.len(),
                filed(cells@, i as int, distances@),
            decreases cells@.len() - i,
        {
            let (cell, distance) = cells[i];
            let ghost before = distances@;
            let mut list = match distances.remove(&distance) {
                Some(list) => list,
                None => Vec::new(),
            };
            list.push(cell);
            distances.insert(distance, list);
            proof {
                assert forall|k: u32| #[trigger]
                    distances@.contains_key(k) <==> bucket(cells@, k, i as int + 1).len()
                        > 0 by {
                    assert(before.contains_key(k) <==> bucket(cells@, k, i as int).len() > 0);
                }
                assert forall|k: u32| #[trigger] distances@.contains_key(k) implies distances@[k]@
                    == bucket(cells@, k, i as int + 1) by {
                    assert(before.contains_key(k) <==> bucket(cells@, k, i as int).len() > 0);
                    if k != distance {
                        assert(before[k]@ == bucket(cells@, k, i as int));
                    } else if before.contains_key(k) {
                        assert(before[k]@ == bucket(cells@, k, i as int));
                    } else {
                        assert(bucket(cells@, k, i as int) =~= Seq::<Cell>::empty());
                    }
                }
            }
            i = i + 1;
        }
        distances
    }

    /// The cell that the distances were measured from: the first one listed
    /// at distance 0.
    pub fn start(&self) -> (cell: Cell)
        requires
            self.wf(),
            self.at(0).len() > 0,
        ensures
            cell == self.at(0)[0],
            self@.contains_key(cell),
            self@[cell] == 0,
    {
        proof {
            self.lemma_at(0, 0);
        }
        match self.distances.get(&0) {
            Some(cells) => cells[0],
            None => vstd::pervasive::unreached(),
        }
    }

    /// Every cell at exactly `distance`; empty where there is none.
    pub fn cells(&self, distance: u32) -> (cells: &[Cell])
        requires
            self.wf(),
        ensures
            cells@ == self.at(distance),
    {
        if let Some(cells) = self.distances.get(&distance) {
            cells.as_slice()
        } else {
            let empty: &[Cell] = &[];
            assert(empty@ =~= self.at(distance));
            empty
        }
    }

    /// The distance of a cell that was reached.
    pub fn distance(&self, cell: Cell) -> (distance: u32)
        requires
            self.wf(),
            self@.contains_key(cell),
        ensures
            distance == self@[cell],
    {
        let ghost k = place(self.cells@, cell);
        let mut i: usize = 0;
        while i < self.cells.len()
            invariant
                i <= k < self.cells@.len(),
                self.cells@[k].0 == cell,
                distinct(self.cells@),
            decreases self.cells@.len() - i,
        {
            if self.cells[i].0 == cell {
                return self.cells[i].1;
            }
            i = i + 1;
        }
        vstd::pervasive::unreached()
    }

    /// Every cell that was reached, with its distance.
    pub fn all_cells(&self) -> (cells: &Vec<(Cell, u32)>)
        ensures
            cells@ == self.entries(),
    {
        &self.cells
    }

    /// The cells filed under a distance are those that the mapping sends
    /// to it, each once.
    pub proof fn lemma_at(&self, distance: u32, index: int)
        requires
            self.wf(),
            0 <= index < self.at(distance).len(),
        ensures
            self@.contains_key(self.at(distance)[index]),
            self@[self.at(distance)[index]] == distance,
    {
        let entries = self.entries();
        let cell = self.at(distance)[index];
        lemma_bucket_members(entries, distance, entries.len() as int);
        assert(self.at(distance).contains(cell));
        let i = choose|i: int| 0 <= i < entries.len() && #[trigger] entries[i] == (cell, distance);
        assert(entries[i].0 == cell);
        assert(listed(entries, cell));
        let p = place(entries, cell);
        if p < i {
            assert(entries[p].0 != entries[i].0);
        } else if i < p {
            assert(entries[i].0 != entries[p].0);
        }
    }
}

impl View for Distances {
    type V = Map<Cell, u32>;

    open spec fn view(&self) -> Map<Cell, u32> {
        mapping(self.entries())
    }
}

/// True when `filing` holds, for each distance that occurs among the first
/// `upto` of `entries`, the cells at that distance in their order, and
/// nothing else.
pub open spec fn filed(
    entries: Seq<(Cell, u32)>,
    upto: int,
    filing: Map<u32, Vec<Cell>>,
) -> bool {
    &&& forall|k: u32| #[trigger] filing.contains_key(k) <==> bucket(entries, k, upto).len() > 0
    &&& forall|k: u32| #[trigger] filing.contains_key(k) ==> filing[k]@ == bucket(entries, k, upto)
}

/// A way of measuring the cells of a grid from a start cell.
pub trait Solver {
    /// What this solver finds for the grid and the start cell.
    spec fn solves(&self, grid: GridView, start: Cell, found: Map<Cell, u32>) -> bool;

    /// Measures `grid` from the cell at `start`, which is a cell of the
    /// grid. A grid has no more cells than a distance can count.
    fn solve(&self, grid: &Grid, start: (u32, u32)) -> (distances: Distances)
        requires
            grid.wf(),
            grid@.layout.at(start.0 as int, start.1 as int) is Some,
            grid@.layout.rows * grid@.layout.columns <= u32::MAX,
        ensures
            distances.wf(),
            distances.at(0) == seq![Cell { row: start.0, column: start.1 }],
            forall|cell: Cell| distances@.contains_key(cell) ==> grid@.layout.has(cell),
            self.solves(grid@, Cell { row: start.0, column: start.1 }, distances@),
    ;
}

/// The number of steps between two cells when no wall is in the way.
pub open spec fn manhattan(from: Cell, to: Cell) -> int {
    gap(from.row as int, to.row as int) + gap(from.column as int, to.column as int)
}

/// The solver that ignores the passages: every cell of the grid is as far
/// away as its rows and columns differ from those of the start.
pub struct SimpleSolver {}

impl Solver for SimpleSolver {
    open spec fn solves(&self, grid: GridView, start: Cell, found: Map<Cell, u32>) -> bool {
        &&& forall|cell: Cell| found.contains_key(cell) <==> grid.layout.has(cell)
        &&& forall|cell: Cell| found.contains_key(cell) ==> found[cell] == manhattan(start, cell)
    }

    fn solve(&self, grid: &Grid, start: (u32, u32)) -> (distances: Distances) {
        let cells = grid.cells();
        let (row, column) = start;
        let ghost origin = Cell { row, column };
        let ghost layout = grid@.layout;
        let ghost list = layout.cell_list();
        proof {
            layout.lemma_cell_list();
            layout.lemma_listed(layout.cells.len() as int);
            assert(layout.has(origin));
            assert(layout.rows + layout.columns <= layout.rows * layout.columns + 1)
                by (nonlinear_arith)
                requires
                    layout.rows >= 1,
                    layout.columns >= 1,
            ;
        }
        let mut entries: Vec<(Cell, u32)> = Vec::new();
        let mut i: usize = 0;
        while i < cells.len()
            invariant
                i <= cells@.len(),
                cells@.map_values(|c: &Cell| *c) == list,
                list == layout.cell_list(),
                layout == grid@.layout,
                layout.wf(),
                grid.wf(),
                row < layout.rows,
                column < layout.columns,
                layout.rows + layout.columns <= u32::MAX + 1,
                origin == (Cell { row, column }),
                forall|k: int| 0 <= k < list.len() ==> layout.has(#[trigger] list[k]),
                entries@.len() == i,
                forall|j: int|
                    0 <= j < i ==> (#[trigger] entries@[j]).0 == list[j] && entries@[j].1
                        == manhattan(origin, list[j]),
            decreases cells@.len() - i,
        {
            let cell = cells[i];
            proof {
                assert(cells@.map_values(|c: &Cell| *c)[i as int] == *cell);
                assert(layout.has(list[i as int]));
            }
            entries.push((*cell, diff(row, cell.row()) + diff(column, cell.column())));
            i = i + 1;
        }
        proof {
            assert(cells@.map_values(|c: &Cell| *c).len() == cells@.len());
            assert forall|a: int, b: int| 0 <= a < b < entries@.len() implies (
            #[trigger] entries@[a]).0 != (#[trigger] entries@[b]).0 by {
                assert(list[a] != list[b]);
            }
            assert(list.contains(origin));
            let only = choose|k: int| 0 <= k < list.len() && list[k] == origin;
            assert forall|k: int| 0 <= k < entries@.len() implies ((#[trigger] entries@[k]).1 == 0
                <==> k == only) by {
                if entries@[k].1 == 0 {
                    assert(list[k] == origin);
                    if k != only {
                        if k < only {
                            assert(list[k] != list[only]);
                        } else {
                            assert(list[only] != list[k]);
                        }
                    }
                }
            }
            lemma_bucket_single(entries@, 0, entries@.len() as int, only);
            assert(entries@[only].0 == origin);
            assert forall|cell: Cell| mapping(entries@).contains_key(cell) <==> layout.has(
                cell,
            ) by {
                if mapping(entries@).contains_key(cell) {
                    let p = place(entries@, cell);
                    assert(entries@[p].0 == list[p]);
                }
                if layout.has(cell) {
                    assert(list.contains(cell));
                    let k = choose|k: int| 0 <= k < list.len() && list[k] == cell;
                    assert(entries@[k].0 == cell);
                }
            }
            assert forall|cell: Cell| mapping(entries@).contains_key(cell) implies mapping(
                entries@,
            )[cell] == manhattan(origin, cell) by {
                let p = place(entries@, cell);
                assert(entries@[p].0 == list[p]);
            }
        }
        Distances::new(entries)
    }
}

} // verus!
