//! The four-point compass and the rectangular grid built on it.

use vstd::prelude::*;
use crate::maze::{slot, Cell, Direction};
use crate::maze::attributes::{Attributes, Links, Neighbours};
use crate::maze::view::{
    blank, full, lemma_slot_bound, lemma_slot_order, lemma_slot_split, lemma_slot_unique,
    masked_by, GridView, Layout,
};
use crate::router::{NoOp, Router};
use crate::solver::{distinct, largest, lemma_largest, lemma_mapping, listed, place, Distances};

verus! {

/// The four compass points, enumerated clockwise from north.
#[derive(Debug, PartialEq, Eq, Structural, Hash, Clone, Copy)]
pub enum Compass {
    North,
    East,
    South,
    West,
}

impl Compass {
    /// The place of a compass point in the clockwise enumeration.
    pub open spec fn rank(self) -> int {
        match self {
            Compass::North => 0,
            Compass::East => 1,
            Compass::South => 2,
            Compass::West => 3,
        }
    }
}

impl Direction for Compass {
    open spec fn reversed(self) -> Compass {
        match self {
            Compass::North => Compass::South,
            Compass::East => Compass::West,
            Compass::South => Compass::North,
            Compass::West => Compass::East,
        }
    }

    open spec fn step(self, row: int, column: int) -> (int, int) {
        match self {
            Compass::North => (row - 1, column),
            Compass::East => (row, column + 1),
            Compass::South => (row + 1, column),
            Compass::West => (row, column - 1),
        }
    }

    open spec fn every() -> Seq<Compass> {
        seq![Compass::North, Compass::East, Compass::South, Compass::West]
    }

    proof fn lemma_reverse_involution(self, row: int, column: int) {
    }

    proof fn lemma_every_complete(self, row: int, column: int) {
        let every = Self::every();
        assert(every[0] == Compass::North && every[1] == Compass::East && every[2]
            == Compass::South && every[3] == Compass::West);
    }

    fn reverse(&self) -> (r: Compass) {
        match self {
            Compass::North => Compass::South,
            Compass::East => Compass::West,
            Compass::South => Compass::North,
            Compass::West => Compass::East,
        }
    }

    fn neighbour(&self, row: u32, column: u32) -> (rc: (u32, u32)) {
        match self {
            Compass::North => (row - 1, column),
            Compass::East => (row, column + 1),
            Compass::South => (row + 1, column),
            Compass::West => (row, column - 1),
        }
    }

    fn checked_neighbour(&self, rows: u32, columns: u32, row: u32, column: u32) -> (rc: Option<
        (u32, u32),
    >) {
        match self {
            Compass::North if 0 < row && row <= rows && column < columns => Some(
                self.neighbour(row, column),
            ),
            Compass::East if row < rows && columns > 0 && column < columns - 1 => Some(
                self.neighbour(row, column),
            ),
            Compass::South if rows > 0 && row < rows - 1 && column < columns => Some(
                self.neighbour(row, column),
            ),
            Compass::West if row < rows && 0 < column && column <= columns => Some(
                self.neighbour(row, column),
            ),
            _ => None,
        }
    }

    fn offset(rows: u32, columns: u32, row: u32, column: u32) -> (index: Option<usize>) {
        if row >= rows || column >= columns {
            None
        } else {
            proof {
                lemma_slot_bound(rows as int, columns as int, row as int, column as int);
            }
            Some(row as usize * columns as usize + column as usize)
        }
    }

    fn all() -> (list: Vec<Compass>) {
        vec![Compass::North, Compass::East, Compass::South, Compass::West]
    }
}

/// A rectangular maze: a masked grid of cells, the passages carved between
/// them, and the distances a solver has assigned.
#[derive(Debug)]
pub struct Grid {
    rows: u32,
    columns: u32,
    cells: Vec<Option<Cell>>,
    attributes: Vec<Option<Attributes>>,
    max_distance: Option<u32>,
}

/// The layout of a rectangle of `rows` by `columns` with the given slots.
pub open spec fn layout_of(rows: u32, columns: u32, cells: Seq<Option<Cell>>) -> Layout {
    Layout { rows: rows as nat, columns: columns as nat, cells }
}

impl Grid {
    /// The masking function that allows every cell.
    pub fn allow_all(row: u32, column: u32) -> (allowed: bool)
        ensures
            allowed,
    {
        true
    }

    /// Builds a grid of `rows` by `columns`: a cell wherever `allowed` holds
    /// and a masked slot elsewhere, every cell with its neighbours and
    /// without passages; then lets `router` carve the passages.
    pub fn grid<F, R>(rows: u32, columns: u32, allowed: F, router: &mut R) -> (grid: Grid) where
        F: Fn(u32, u32) -> bool,
        R: Router,

        requires
            rows * columns <= usize::MAX,
            forall|row: u32, column: u32|
                row < rows && column < columns ==> call_requires(allowed, (row, column)),
            forall|layout: Layout|
                layout.wf() && layout.rows == rows && layout.columns == columns ==> old(
                    router,
                ).ready(layout),
        ensures
            grid.wf(),
            grid@.layout.rows == rows,
            grid@.layout.columns == columns,
            masked_by(allowed, grid@.layout),
            grid@.same_layout(blank(grid@.layout)),
            final(router).ready(grid@.layout),
            old(router).carves(blank(grid@.layout), *final(router), grid@),
    {
        let cells = Grid::build_cells(rows, columns, allowed);
        let attributes = Grid::build_attributes(cells.as_slice(), rows, columns);
        let c = cells.clone();
        let mut grid = Grid { rows, columns, cells, attributes, max_distance: None };
        proof {
            let layout = layout_of(rows, columns, grid.cells@);
            assert forall|cell: Cell| layout.has(cell) implies grid.record(cell).links@
                == Set::<Compass>::empty() && grid.record(cell).distance is None by {
                layout.lemma_has_slot(cell);
                let i = slot(columns as int, cell.row as int, cell.column as int);
                assert(grid.attributes@[i] is Some);
            }
            assert(grid@.links =~= blank(layout).links);
            assert(grid@.distances =~= blank(layout).distances);
            assert(grid@ == blank(layout));
            assert(c@ =~= grid.cells@);
        }
        router.carve(&mut grid, c);
        grid
    }

    /// A square grid of `size` by `size` with every cell present and no
    /// passage carved.
    pub fn square(size: u32) -> (grid: Grid)
        requires
            size * size <= usize::MAX,
        ensures
            grid.wf(),
            grid@ == blank(full(size as nat, size as nat)),
    {
        let grid = Grid::grid(size, size, Grid::allow_all, &mut NoOp {  });
        proof {
            let layout = grid@.layout;
            let whole = full(size as nat, size as nat);
            assert(layout.cells.len() == whole.cells.len());
            assert forall|i: int| 0 <= i < layout.cells.len() implies layout.cells[i]
                == whole.cells[i] by {
                let row = i / size as int;
                let column = i % size as int;
                lemma_slot_split(size as int, size as int, i);
                assert(layout.at(row, column) is Some);
            }
            assert(layout.cells =~= whole.cells);
        }
        grid
    }

    /// Lays the slots out row by row, asking `allowed` once for each position.
    pub fn build_cells<F>(rows: u32, columns: u32, allowed: F) -> (cells: Vec<Option<Cell>>) where
        F: Fn(u32, u32) -> bool,

        requires
            rows * columns <= usize::MAX,
            forall|row: u32, column: u32|
                row < rows && column < columns ==> call_requires(allowed, (row, column)),
        ensures
            layout_of(rows, columns, cells@).wf(),
            masked_by(allowed, layout_of(rows, columns, cells@)),
    {
        let mut cells: Vec<Option<Cell>> = Vec::new();
        let mut row: u32 = 0;
        while row < rows
            invariant
                row <= rows,
                rows * columns <= usize::MAX,
                cells.len() == row * columns,
                forall|r: u32, c: u32|
                    r < rows && c < columns ==> call_requires(allowed, (r, c)),
                forall|r: u32, c: u32|
                    r < row && c < columns ==> Self::placed(
                        allowed,
                        cells@,
                        columns,
                        r,
                        c,
                        #[trigger] slot(columns as int, r as int, c as int),
                    ),
            decreases rows - row,
        {
            let mut column: u32 = 0;
            while column < columns
                invariant
                    row < rows,
                    column <= columns,
                    rows * columns <= usize::MAX,
                    cells.len() == row * columns + column,
                    forall|r: u32, c: u32|
                        r < rows && c < columns ==> call_requires(allowed, (r, c)),
                    forall|r: u32, c: u32|
                        (r < row && c < columns) || (r == row && c < column) ==> Self::placed(
                            allowed,
                            cells@,
                            columns,
                            r,
                            c,
                            #[trigger] slot(columns as int, r as int, c as int),
                        ),
                decreases columns - column,
            {
                proof {
                    lemma_slot_bound(rows as int, columns as int, row as int, column as int);
                }
                let ghost before = cells@;
                let cell = if allowed(row, column) {
                    Some(Cell { row, column })
                } else {
                    None
                };
                cells.push(cell);
                proof {
                    assert forall|r: u32, c: u32|
                        (r < row && c < columns) || (r == row && c < column + 1) implies Self::placed(
                        allowed,
                        cells@,
                        columns,
                        r,
                        c,
                        #[trigger] slot(columns as int, r as int, c as int),
                    ) by {
                        if r == row && c == column {
                        } else {
                            lemma_slot_order(
                                columns as int,
                                r as int,
                                c as int,
                                row as int,
                                column as int,
                            );
                            lemma_slot_bound(row as int + 1, columns as int, r as int, c as int);
                            assert(Self::placed(
                                allowed,
                                before,
                                columns,
                                r,
                                c,
                                slot(columns as int, r as int, c as int),
                            ));
                        }
                    }
                }
                column = column + 1;
            }
            proof {
                assert((row + 1) * columns == row * columns + columns) by (nonlinear_arith);
            }
            row = row + 1;
        }
        proof {
            let view = layout_of(rows, columns, cells@);
            assert forall|r: int, c: int| (#[trigger] view.at(r, c)) is Some implies view.at(
                r,
                c,
            )->0.row == r && view.at(r, c)->0.column == c by {
                assert(Self::placed(
                    allowed,
                    cells@,
                    columns,
                    r as u32,
                    c as u32,
                    slot(columns as int, r as u32 as int, c as u32 as int),
                ));
            }
            assert forall|r: u32, c: u32| r < view.rows && c < view.columns implies call_ensures(
                allowed,
                (r, c),
                #[trigger] view.at(r as int, c as int) is Some,
            ) by {
                assert(Self::placed(
                    allowed,
                    cells@,
                    columns,
                    r,
                    c,
                    slot(columns as int, r as int, c as int),
                ));
            }
        }
        cells
    }

    /// Finds the unmasked cells adjacent to `cell` in the slots of a
    /// rectangle of `rows` by `columns`.
    pub fn _neighbours(cells: &[Option<Cell>], rows: u32, columns: u32, cell: &Cell) -> (neighbours:
        Neighbours)
        requires
            cells@.len() == rows * columns,
        ensures
            neighbours@ == layout_of(rows, columns, cells@).neighbours(*cell),
    {
        let ghost view = layout_of(rows, columns, cells@);
        let directions = Compass::all();
        let mut neighbours = Neighbours::new();
        let count = cells.len();
        let mut i: usize = 0;
        while i < directions.len()
            invariant
                i <= directions.len(),
                directions@ == Compass::every(),
                cells@.len() == rows * columns,
                rows * columns <= usize::MAX,
                view == layout_of(rows, columns, cells@),
                forall|d: Compass|
                    neighbours@.contains_key(d) <==> d.rank() < i && view.neighbour(*cell, d)
                        is Some,
                forall|d: Compass|
                    neighbours@.contains_key(d) ==> neighbours@[d] == view.neighbour(*cell, d)->0,
            decreases directions.len() - i,
        {
            let direction = directions[i];
            assert(direction.rank() == i);
            assert(forall|d: Compass| d.rank() == i ==> d == direction);
            if let Some((row, column)) = direction.checked_neighbour(
                rows,
                columns,
                cell.row(),
                cell.column(),
            ) {
                if let Some(offset) = Compass::offset(rows, columns, row, column) {
                    if let Some(c) = cells[offset] {
                        neighbours.insert(direction, c);
                    }
                }
            }
            i = i + 1;
        }
        assert(neighbours@ =~= view.neighbours(*cell));
        neighbours
    }

    /// Makes the record of every unmasked slot, with its neighbours, no
    /// passage and no distance.
    pub fn build_attributes(cells: &[Option<Cell>], rows: u32, columns: u32) -> (attributes: Vec<
        Option<Attributes>,
    >)
        requires
            cells@.len() == rows * columns,
        ensures
            attributes@.len() == cells@.len(),
            forall|i: int|
                0 <= i < cells@.len() ==> match cells@[i] {
                    Some(cell) => (#[trigger] attributes@[i]) matches Some(a) && a.neighbours@
                        == layout_of(rows, columns, cells@).neighbours(cell)
                        && a.links@ == Set::<Compass>::empty() && a.distance is None,
                    None => attributes@[i] is None,
                },
    {
        let mut attributes: Vec<Option<Attributes>> = Vec::new();
        let mut i: usize = 0;
        while i < cells.len()
            invariant
                i <= cells@.len(),
                cells@.len() == rows * columns,
                attributes@.len() == i,
                forall|j: int|
                    0 <= j < i ==> match cells@[j] {
                        Some(cell) => (#[trigger] attributes@[j]) matches Some(a) && a.neighbours@
                            == layout_of(rows, columns, cells@).neighbours(cell)
                            && a.links@ == Set::<Compass>::empty() && a.distance is None,
                        None => attributes@[j] is None,
                    },
            decreases cells@.len() - i,
        {
            let record = match &cells[i] {
                Some(cell) => Some(Attributes::new(Self::_neighbours(cells, rows, columns, cell))),
                None => None,
            };
            attributes.push(record);
            i = i + 1;
        }
        attributes
    }

    /// The record kept for `cell`.
    closed spec fn record(&self, cell: Cell) -> Attributes {
        self.attributes@[slot(self.columns as int, cell.row as int, cell.column as int)]->0
    }

    /// The stored records agree with the model: one for each unmasked slot,
    /// holding the neighbours that the layout gives.
    pub closed spec fn consistent(&self) -> bool {
        &&& self.attributes@.len() == self.cells@.len()
        &&& forall|i: int|
            0 <= i < self.cells@.len() ==> match self.cells@[i] {
                Some(cell) => (#[trigger] self.attributes@[i]) matches Some(a) && a.neighbours@
                    == self@.layout.neighbours(cell),
                None => self.attributes@[i] is None,
            }
    }

    /// The invariant that every constructor establishes and every method keeps.
    pub open spec fn wf(&self) -> bool {
        self@.wf() && self.consistent()
    }

    pub fn rows(&self) -> (rows: u32)
        ensures
            rows == self@.layout.rows,
    {
        self.rows
    }

    pub fn columns(&self) -> (columns: u32)
        ensures
            columns == self@.layout.columns,
    {
        self.columns
    }

    pub fn size(&self) -> (size: (u32, u32))
        ensures
            size.0 == self@.layout.rows,
            size.1 == self@.layout.columns,
    {
        (self.rows, self.columns)
    }

    /// Every slot of the rectangle in row-major order, masked ones included.
    pub fn slots(&self) -> (slots: &[Option<Cell>])
        ensures
            slots@ == self@.layout.cells,
    {
        self.cells.as_slice()
    }

    /// The unmasked cells in row-major order.
    pub fn cells(&self) -> (list: Vec<&Cell>)
        ensures
            list@.map_values(|c: &Cell| *c) == self@.layout.cell_list(),
    {
        let mut list: Vec<&Cell> = Vec::new();
        let mut i: usize = 0;
        while i < self.cells.len()
            invariant
                i <= self.cells@.len(),
                self@.layout.cells == self.cells@,
                list@.map_values(|c: &Cell| *c) == self@.layout.listed(i as int),
            decreases self.cells@.len() - i,
        {
            let ghost before = list@;
            if let Some(cell) = &self.cells[i] {
                list.push(cell);
                assert(list@.map_values(|c: &Cell| *c) =~= before.map_values(|c: &Cell| *c).push(
                    *cell,
                ));
            }
            i = i + 1;
        }
        list
    }

    /// The cell at `(row, column)`; `None` outside the rectangle and on a
    /// masked slot.
    pub fn cell(&self, row: u32, column: u32) -> (cell: Option<&Cell>)
        requires
            self.wf(),
        ensures
            match cell {
                Some(c) => self@.layout.at(row as int, column as int) == Some(*c),
                None => self@.layout.at(row as int, column as int) is None,
            },
    {
        let count = self.cells.len();
        match Compass::offset(self.rows, self.columns, row, column) {
            Some(offset) => self.cells[offset].as_ref(),
            None => None,
        }
    }

    /// The index of the slot of `cell`.
    pub fn index_of(&self, cell: &Cell) -> (index: usize)
        requires
            self.wf(),
            self@.layout.has(*cell),
        ensures
            index == slot(self@.layout.columns as int, cell.row as int, cell.column as int),
            index < self@.layout.cells.len(),
            self@.layout.cells[index as int] == Some(*cell),
    {
        let count = self.cells.len();
        match Compass::offset(self.rows, self.columns, cell.row, cell.column) {
            Some(offset) => offset,
            None => vstd::pervasive::unreached(),
        }
    }

    /// The record of an unmasked cell.
    fn attributes(&self, cell: &Cell) -> (record: &Attributes)
        requires
            self.wf(),
            self@.layout.has(*cell),
        ensures
            *record == self.record(*cell),
            record.neighbours@ == self@.layout.neighbours(*cell),
            record.links@ == self@.links[*cell],
            record.distance == (if self@.distances.contains_key(*cell) {
                Some(self@.distances[*cell])
            } else {
                None
            }),
    {
        let index = self.index_of(cell);
        match &self.attributes[index] {
            Some(record) => record,
            None => vstd::pervasive::unreached(),
        }
    }

    /// The neighbour of `cell` in `direction`, if there is one.
    pub fn neighbour(&self, cell: &Cell, direction: Compass) -> (found: Option<&Cell>)
        requires
            self.wf(),
            self@.layout.has(*cell),
        ensures
            match found {
                Some(c) => self@.layout.neighbour(*cell, direction) == Some(*c),
                None => self@.layout.neighbour(*cell, direction) is None,
            },
    {
        self.attributes(cell).get_neighbour(&direction)
    }

    /// The adjacency of `cell`, as it was computed when the grid was built.
    pub fn neighbours(&self, cell: &Cell) -> (neighbours: &Neighbours)
        requires
            self.wf(),
            self@.layout.has(*cell),
        ensures
            neighbours@ == self@.layout.neighbours(*cell),
    {
        &self.attributes(cell).neighbours
    }

    /// The directions in which a passage leaves `cell`.
    pub fn links(&self, cell: &Cell) -> (links: &Links)
        requires
            self.wf(),
            self@.layout.has(*cell),
        ensures
            links@ == self@.links[*cell],
    {
        &self.attributes(cell).links
    }

    /// The distance assigned to `cell`, if any.
    pub fn distance(&self, cell: &Cell) -> (distance: Option<u32>)
        requires
            self.wf(),
            self@.layout.has(*cell),
        ensures
            distance == (if self@.distances.contains_key(*cell) {
                Some(self@.distances[*cell])
            } else {
                None
            }),
    {
        self.attributes(cell).distance
    }

    /// The scale against which distances are rendered.
    pub fn max_distance(&self) -> (max: Option<u32>)
        ensures
            max == self@.max_distance,
    {
        self.max_distance
    }

    /// True when `cell` is a cell and a passage leaves it in `direction`.
    pub fn has_link(&self, cell: &Option<Cell>, direction: Compass) -> (found: bool)
        requires
            self.wf(),
            cell matches Some(c) ==> self@.layout.has(*c),
        ensures
            found == (cell matches Some(c) && self@.linked(*c, direction)),
    {
        match cell {
            Some(c) => self.attributes(c).has_link(&direction),
            None => false,
        }
    }

    /// Opens or closes one end of a passage: `direction` joins or leaves the
    /// link set of `cell`, and nothing else changes.
    fn set_link(&mut self, cell: &Cell, direction: Compass, open: bool)
        requires
            old(self)@.layout.wf(),
            old(self).consistent(),
            old(self)@.layout.has(*cell),
        ensures
            final(self).consistent(),
            final(self)@ == old(self)@.with_end(*cell, direction, open),
    {
        proof {
            old(self)@.layout.lemma_has_slot(*cell);
        }
        let count = self.cells.len();
        let index = match Compass::offset(self.rows, self.columns, cell.row, cell.column) {
            Some(offset) => offset,
            None => vstd::pervasive::unreached(),
        };
        let mut record = match self.attributes[index] {
            Some(record) => record,
            None => vstd::pervasive::unreached(),
        };
        if open {
            record.add_link(&direction);
        } else {
            record.remove_link(&direction);
        }
        self.attributes[index] = Some(record);
        proof {
            let before = old(self)@;
            let wanted = before.with_end(*cell, direction, open);
            assert(self@.layout == before.layout);
            assert forall|c: Cell| before.layout.has(c) && c != *cell implies self.record(c)
                == old(self).record(c) by {
                before.layout.lemma_has_slot(c);
                if slot(self.columns as int, c.row as int, c.column as int) == index {
                    lemma_slot_unique(
                        self.columns as int,
                        c.row as int,
                        c.column as int,
                        cell.row as int,
                        cell.column as int,
                    );
                }
            }
            assert(self@.links =~= wanted.links);
            assert(self@.distances =~= wanted.distances);
        }
    }

    /// Notes `distance` for `cell`, or clears what was noted; nothing else
    /// changes.
    fn set_distance(&mut self, cell: &Cell, distance: Option<u32>)
        requires
            old(self)@.layout.wf(),
            old(self).consistent(),
            old(self)@.layout.has(*cell),
        ensures
            final(self).consistent(),
            final(self)@ == (GridView {
                distances: match distance {
                    Some(d) => old(self)@.distances.insert(*cell, d),
                    None => old(self)@.distances.remove(*cell),
                },
                ..old(self)@
            }),
    {
        proof {
            old(self)@.layout.lemma_has_slot(*cell);
        }
        let count = self.cells.len();
        let index = match Compass::offset(self.rows, self.columns, cell.row, cell.column) {
            Some(offset) => offset,
            None => vstd::pervasive::unreached(),
        };
        let mut record = match self.attributes[index] {
            Some(record) => record,
            None => vstd::pervasive::unreached(),
        };
        record.distance = distance;
        self.attributes[index] = Some(record);
        proof {
            let before = old(self)@;
            let wanted = GridView {
                distances: match distance {
                    Some(d) => before.distances.insert(*cell, d),
                    None => before.distances.remove(*cell),
                },
                ..before
            };
            assert(self@.layout == before.layout);
            assert forall|c: Cell| before.layout.has(c) && c != *cell implies self.record(c)
                == old(self).record(c) by {
                before.layout.lemma_has_slot(c);
                if slot(self.columns as int, c.row as int, c.column as int) == index {
                    lemma_slot_unique(
                        self.columns as int,
                        c.row as int,
                        c.column as int,
                        cell.row as int,
                        cell.column as int,
                    );
                }
            }
            assert(self@.links =~= wanted.links);
            assert(self@.distances =~= wanted.distances);
        }
    }

    /// Attaches the distances that a solver has found: every cell that the
    /// result lists gets its distance, every other cell is left without
    /// one, and the scale becomes the largest distance listed (0 where
    /// none is).
    pub fn apply_distances(&mut self, distances: Distances)
        requires
            old(self).wf(),
            distances.wf(),
            forall|cell: Cell| distances@.contains_key(cell) ==> old(self)@.layout.has(cell),
        ensures
            final(self).wf(),
            final(self)@ == (GridView {
                distances: distances@,
                max_distance: Some(largest(distances.entries(), distances.entries().len() as int)),
                ..old(self)@
            }),
    {
        let ghost before = self@;
        let ghost layout = self@.layout;
        let mut i: usize = 0;
        while i < self.cells.len()
            invariant
                i <= self.cells@.len(),
                layout.wf(),
                self@.layout == layout,
                self.cells@ == layout.cells,
                self.consistent(),
                self@.links == before.links,
                self@.max_distance == before.max_distance,
                forall|c: Cell| #[trigger]
                    self@.distances.contains_key(c) ==> layout.has(c) && slot(
                        layout.columns as int,
                        c.row as int,
                        c.column as int,
                    ) >= i,
            decreases self.cells@.len() - i,
        {
            proof {
                layout.lemma_slot_holds(i as int);
            }
            if let Some(cell) = self.cells[i] {
                self.set_distance(&cell, None);
            }
            i = i + 1;
        }
        proof {
            assert forall|c: Cell| !self@.distances.contains_key(c) by {
                if self@.distances.contains_key(c) {
                    layout.lemma_has_slot(c);
                }
            }
            assert(self@.distances =~= Map::<Cell, u32>::empty());
        }
        let entries = distances.all_cells();
        proof {
            distances.lemma_distinct();
            assert forall|k: int| 0 <= k < entries@.len() implies layout.has(
                (#[trigger] entries@[k]).0,
            ) by {
                lemma_mapping(entries@, k);
            }
        }
        let mut max: u32 = 0;
        let mut j: usize = 0;
        while j < entries.len()
            invariant
                j <= entries@.len(),
                entries@ == distances.entries(),
                distinct(entries@),
                forall|k: int| 0 <= k < entries@.len() ==> layout.has((#[trigger] entries@[k]).0),
                layout.wf(),
                self@.layout == layout,
                self.consistent(),
                self@.links == before.links,
                max == largest(entries@, j as int),
                forall|c: Cell| #[trigger]
                    self@.distances.contains_key(c) <==> exists|k: int|
                        0 <= k < j && (#[trigger] entries@[k]).0 == c,
                forall|k: int|
                    0 <= k < j ==> self@.distances[(#[trigger] entries@[k]).0] == entries@[k].1,
            decreases entries@.len() - j,
        {
            let (cell, distance) = entries[j];
            if distance > max {
                max = distance;
            }
            let ghost held = self@.distances;
            self.set_distance(&cell, Some(distance));
            proof {
                assert forall|c: Cell| #[trigger]
                    self@.distances.contains_key(c) <==> exists|k: int|
                        0 <= k < j + 1 && (#[trigger] entries@[k]).0 == c by {
                    if c == cell {
                        assert(entries@[j as int].0 == c);
                    } else if held.contains_key(c) {
                        let k = choose|k: int| 0 <= k < j && (#[trigger] entries@[k]).0 == c;
                        assert(0 <= k < j + 1 && entries@[k].0 == c);
                    }
                }
                assert forall|k: int| 0 <= k < j + 1 implies self@.distances[(
                #[trigger] entries@[k]).0] == entries@[k].1 by {
                    if k < j {
                        assert(entries@[k].0 != entries@[j as int].0);
                    }
                }
            }
            j = j + 1;
        }
        let ghost noted = self@;
        self.max_distance = Some(max);
        proof {
            assert(self@.distances =~= noted.distances);
            assert(self@.links =~= noted.links);
            assert(self@.layout == layout);
            assert forall|c: Cell| self@.distances.contains_key(c) <==> distances@.contains_key(
                c,
            ) by {
                if self@.distances.contains_key(c) {
                    let k = choose|k: int| 0 <= k < j && (#[trigger] entries@[k]).0 == c;
                    assert(listed(entries@, c));
                }
                if distances@.contains_key(c) {
                    let k = place(entries@, c);
                    assert(0 <= k < j && entries@[k].0 == c);
                }
            }
            assert forall|c: Cell| self@.distances.contains_key(c) implies self@.distances[c]
                == distances@[c] && self@.distances[c] <= max by {
                let k = place(entries@, c);
                lemma_mapping(entries@, k);
                lemma_largest(entries@, entries@.len() as int, k);
            }
            assert(self@.distances =~= distances@);
            assert(before.wf());
            assert(self@.links == before.links);
            assert forall|c: Cell| #[trigger] self@.links.contains_key(c) <==> self@.layout.has(
                c,
            ) by {
                assert(before.links.contains_key(c) <==> before.layout.has(c));
            }
            assert forall|c: Cell, d: Compass| #[trigger] self@.linked(c, d) implies self@.paired(
                c,
                d,
            ) by {
                assert(before.linked(c, d));
                assert(before.paired(c, d));
            }
            assert(self@.wf());
        }
    }

    /// Opens the passage from `cell` towards `direction`, at both ends, and
    /// returns the cell it leads to. Where `cell` has no neighbour in that
    /// direction nothing changes and the result is `None`.
    pub fn link_cell(&mut self, cell: &Cell, direction: Compass) -> (to: Option<Cell>)
        requires
            old(self).wf(),
            old(self)@.layout.has(*cell),
        ensures
            final(self).wf(),
            final(self)@ == old(self)@.with_link(*cell, direction),
            to == old(self)@.layout.neighbour(*cell, direction),
    {
        let found = match self.neighbour(cell, direction) {
            Some(c) => Some(*c),
            None => None,
        };
        match found {
            Some(to) => {
                self.set_link(cell, direction, true);
                self.set_link(&to, direction.reverse(), true);
                proof {
                    old(self)@.lemma_with_link(*cell, direction);
                }
                Some(to)
            },
            None => None,
        }
    }

    /// Closes the passage from `cell` towards `direction`, at both ends, and
    /// returns the cell it led to. Where `cell` has no neighbour in that
    /// direction nothing changes and the result is `None`.
    pub fn unlink_cell(&mut self, cell: &Cell, direction: Compass) -> (to: Option<Cell>)
        requires
            old(self).wf(),
            old(self)@.layout.has(*cell),
        ensures
            final(self).wf(),
            final(self)@ == old(self)@.without_link(*cell, direction),
            to == old(self)@.layout.neighbour(*cell, direction),
    {
        let found = match self.neighbour(cell, direction) {
            Some(c) => Some(*c),
            None => None,
        };
        match found {
            Some(to) => {
                self.set_link(cell, direction, false);
                self.set_link(&to, direction.reverse(), false);
                proof {
                    old(self)@.lemma_without_link(*cell, direction);
                }
                Some(to)
            },
            None => None,
        }
    }

    /// What `build_cells` has established for the slot of `(row, column)`.
    pub open spec fn placed<F: Fn(u32, u32) -> bool>(
        allowed: F,
        cells: Seq<Option<Cell>>,
        columns: u32,
        row: u32,
        column: u32,
        index: int,
    ) -> bool {
        &&& 0 <= index < cells.len()
        &&& call_ensures(allowed, (row, column), cells[index] is Some)
        &&& cells[index] matches Some(cell) ==> cell == (Cell { row, column })
    }
}

impl View for Grid {
    type V = GridView;

    closed spec fn view(&self) -> GridView {
        let layout = layout_of(self.rows, self.columns, self.cells@);
        GridView {
            layout,
            links: Map::new(|c: Cell| layout.has(c), |c: Cell| self.record(c).links@),
            distances: Map::new(
                |c: Cell| layout.has(c) && self.record(c).distance is Some,
                |c: Cell| self.record(c).distance->0,
            ),
            max_distance: self.max_distance,
        }
    }
}

} // verus!
