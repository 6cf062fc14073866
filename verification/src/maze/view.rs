//! The mathematical model of a grid, over which every contract is stated.

use vstd::prelude::*;
use crate::maze::{inside, slot, Cell, Direction};
use crate::maze::grid::Compass;

verus! {

/// The part of a grid that is fixed when it is built: the rectangle and its
/// mask.
pub struct Layout {
    /// Height and width of the rectangle.
    pub rows: nat,
    pub columns: nat,
    /// One slot for each position, row by row; `None` marks a masked slot.
    pub cells: Seq<Option<Cell>>,
}

impl Layout {
    /// The cell at `(row, column)`; `None` outside the rectangle and on a
    /// masked slot.
    pub open spec fn at(self, row: int, column: int) -> Option<Cell> {
        if inside(self.rows as int, self.columns as int, row, column) {
            self.cells[slot(self.columns as int, row, column)]
        } else {
            None
        }
    }

    /// True when `cell` is an unmasked cell of this layout.
    pub open spec fn has(self, cell: Cell) -> bool {
        self.at(cell.row as int, cell.column as int) == Some(cell)
    }

    /// The unmasked cell one step from `cell` in `direction`, if there is one.
    pub open spec fn neighbour(self, cell: Cell, direction: Compass) -> Option<Cell> {
        let there = direction.step(cell.row as int, cell.column as int);
        self.at(there.0, there.1)
    }

    /// The adjacency of `cell`: every direction with an unmasked target.
    pub open spec fn neighbours(self, cell: Cell) -> Map<Compass, Cell> {
        Map::new(
            |d: Compass| self.neighbour(cell, d) is Some,
            |d: Compass| self.neighbour(cell, d)->0,
        )
    }

    /// The slots hold exactly one position each, in row-major order.
    pub open spec fn wf(self) -> bool {
        &&& self.cells.len() == self.rows * self.columns
        &&& forall|row: int, column: int|
            (#[trigger] self.at(row, column)) matches Some(c) ==> c.row == row && c.column
                == column
    }

    /// The unmasked cells among the first `upto` slots, in row-major order.
    pub open spec fn listed(self, upto: int) -> Seq<Cell>
        decreases upto,
    {
        if upto <= 0 {
            Seq::empty()
        } else {
            match self.cells[upto - 1] {
                Some(c) => self.listed(upto - 1).push(c),
                None => self.listed(upto - 1),
            }
        }
    }

    /// Every unmasked cell, in row-major order.
    pub open spec fn cell_list(self) -> Seq<Cell> {
        self.listed(self.cells.len() as int)
    }

    /// The slot of a cell of the layout lies within the slots and holds it.
    pub proof fn lemma_has_slot(self, cell: Cell)
        requires
            self.wf(),
            self.has(cell),
        ensures
            inside(self.rows as int, self.columns as int, cell.row as int, cell.column as int),
            0 <= slot(self.columns as int, cell.row as int, cell.column as int)
                < self.cells.len(),
            self.cells[slot(self.columns as int, cell.row as int, cell.column as int)] == Some(
                cell,
            ),
    {
        lemma_slot_bound(
            self.rows as int,
            self.columns as int,
            cell.row as int,
            cell.column as int,
        );
    }

    /// A slot that is not masked holds a cell of the layout.
    pub proof fn lemma_slot_holds(self, index: int)
        requires
            self.wf(),
            0 <= index < self.cells.len(),
        ensures
            self.cells[index] matches Some(c) ==> self.has(c) && slot(
                self.columns as int,
                c.row as int,
                c.column as int,
            ) == index,
    {
        lemma_slot_split(self.rows as int, self.columns as int, index);
        let row = index / self.columns as int;
        let column = index % self.columns as int;
        assert(self.at(row, column) == self.cells[index]);
    }

    /// The cells listed among the first `upto` slots are cells of the
    /// layout, in the order of their slots, and none of those slots is
    /// left out.
    pub proof fn lemma_listed(self, upto: int)
        requires
            self.wf(),
            0 <= upto <= self.cells.len(),
        ensures
            forall|k: int|
                0 <= k < self.listed(upto).len() ==> self.has(#[trigger] self.listed(upto)[k])
                    && slot(
                    self.columns as int,
                    self.listed(upto)[k].row as int,
                    self.listed(upto)[k].column as int,
                ) < upto,
            forall|a: int, b: int|
                0 <= a < b < self.listed(upto).len() ==> slot(
                    self.columns as int,
                    (#[trigger] self.listed(upto)[a]).row as int,
                    self.listed(upto)[a].column as int,
                ) < slot(
                    self.columns as int,
                    (#[trigger] self.listed(upto)[b]).row as int,
                    self.listed(upto)[b].column as int,
                ),
            forall|i: int|
                0 <= i < upto && (#[trigger] self.cells[i]) is Some ==> self.listed(
                    upto,
                ).contains(self.cells[i]->0),
        decreases upto,
    {
        if upto > 0 {
            self.lemma_listed(upto - 1);
            self.lemma_slot_holds(upto - 1);
            let before = self.listed(upto - 1);
            let now = self.listed(upto);
            assert forall|i: int| 0 <= i < upto && (#[trigger] self.cells[i]) is Some implies now.contains(
                self.cells[i]->0,
            ) by {
                if i == upto - 1 {
                    assert(now[now.len() - 1] == self.cells[i]->0);
                } else {
                    assert(before.contains(self.cells[i]->0));
                    let k = choose|k: int| 0 <= k < before.len() && before[k] == self.cells[i]->0;
                    assert(now[k] == self.cells[i]->0);
                }
            }
        }
    }

    /// The cell list names every cell of the layout exactly once; so its
    /// length is the number of positions that are not masked.
    pub proof fn lemma_cell_list(self)
        requires
            self.wf(),
        ensures
            self.cell_list().no_duplicates(),
            forall|cell: Cell| self.cell_list().contains(cell) <==> self.has(cell),
            self.cell_list().len() == Set::new(|cell: Cell| self.has(cell)).len(),
    {
        let list = self.cell_list();
        self.lemma_listed(self.cells.len() as int);
        assert forall|cell: Cell| list.contains(cell) <==> self.has(cell) by {
            if self.has(cell) {
                self.lemma_has_slot(cell);
                let i = slot(self.columns as int, cell.row as int, cell.column as int);
                assert(self.cells[i] is Some);
            }
        }
        assert(list.to_set() =~= Set::new(|cell: Cell| self.has(cell)));
        list.unique_seq_to_set();
    }

    /// The neighbour of a cell is a cell of the layout, one unit step away,
    /// from which the reverse step leads back.
    pub proof fn lemma_neighbour_back(self, cell: Cell, direction: Compass)
        requires
            self.wf(),
            self.has(cell),
            self.neighbour(cell, direction) is Some,
        ensures
            ({
                let n = self.neighbour(cell, direction)->0;
                &&& self.has(n)
                &&& n != cell
                &&& (n.row as int, n.column as int) == direction.step(
                    cell.row as int,
                    cell.column as int,
                )
                &&& self.neighbour(n, direction.reversed()) == Some(cell)
            }),
    {
        let there = direction.step(cell.row as int, cell.column as int);
        let n = self.at(there.0, there.1)->0;
        assert(n.row == there.0 && n.column == there.1);
        direction.lemma_reverse_involution(cell.row as int, cell.column as int);
        direction.lemma_every_complete(cell.row as int, cell.column as int);
    }
}

/// What a grid is, apart from how it is stored.
pub struct GridView {
    /// The rectangle and its mask.
    pub layout: Layout,
    /// The passages that leave each unmasked cell.
    pub links: Map<Cell, Set<Compass>>,
    /// The distance of each cell that has one.
    pub distances: Map<Cell, u32>,
    /// The scale against which distances are rendered.
    pub max_distance: Option<u32>,
}

impl GridView {
    /// True when a passage leaves `cell` in `direction`.
    pub open spec fn linked(self, cell: Cell, direction: Compass) -> bool {
        self.links.contains_key(cell) && self.links[cell].contains(direction)
    }

    /// True when `cell` has a neighbour in `direction` and the passage is
    /// open from that neighbour's end.
    pub open spec fn paired(self, cell: Cell, direction: Compass) -> bool {
        self.layout.neighbour(cell, direction) matches Some(n) && self.links.contains_key(n)
            && self.links[n].contains(direction.reversed())
    }

    /// The invariant of every grid: the layout is sound, link sets exist for
    /// the unmasked cells alone, every passage is open from both of its ends,
    /// and no distance exceeds the scale.
    pub open spec fn wf(self) -> bool {
        &&& self.layout.wf()
        &&& forall|cell: Cell| #[trigger] self.links.contains_key(cell) <==> self.layout.has(cell)
        &&& forall|cell: Cell, d: Compass| #[trigger] self.linked(cell, d) ==> self.paired(cell, d)
        &&& forall|cell: Cell| #[trigger]
            self.distances.contains_key(cell) ==> self.layout.has(cell) && (
            self.max_distance matches Some(m) && self.distances[cell] <= m)
    }

    /// Two grids that differ in their passages at most.
    pub open spec fn same_layout(self, other: GridView) -> bool {
        &&& self.layout == other.layout
        &&& self.distances == other.distances
        &&& self.max_distance == other.max_distance
    }

    /// The grid with `direction` added to, or taken from, the link set of
    /// `cell`.
    pub open spec fn with_end(self, cell: Cell, direction: Compass, open: bool) -> GridView {
        GridView {
            links: self.links.insert(
                cell,
                if open {
                    self.links[cell].insert(direction)
                } else {
                    self.links[cell].remove(direction)
                },
            ),
            ..self
        }
    }

    /// The grid after opening the passage from `cell` towards `direction`,
    /// at both of its ends.
    pub open spec fn with_link(self, cell: Cell, direction: Compass) -> GridView {
        match self.layout.neighbour(cell, direction) {
            Some(n) => self.with_end(cell, direction, true).with_end(
                n,
                direction.reversed(),
                true,
            ),
            None => self,
        }
    }

    /// The grid after closing the passage from `cell` towards `direction`,
    /// at both of its ends.
    pub open spec fn without_link(self, cell: Cell, direction: Compass) -> GridView {
        match self.layout.neighbour(cell, direction) {
            Some(n) => self.with_end(cell, direction, false).with_end(
                n,
                direction.reversed(),
                false,
            ),
            None => self,
        }
    }

    /// Every passage is open from both of its ends: where a passage leaves
    /// `cell` in `direction`, the cell has a neighbour there, and a passage
    /// leaves that neighbour in the reverse direction.
    pub proof fn lemma_links_symmetric(self, cell: Cell, direction: Compass)
        requires
            self.wf(),
            self.linked(cell, direction),
        ensures
            self.layout.has(cell),
            self.layout.neighbour(cell, direction) is Some,
            self.linked(self.layout.neighbour(cell, direction)->0, direction.reversed()),
    {
        assert(self.paired(cell, direction));
    }

    /// Opening a passage that was closed and closing it again restores the
    /// grid, and so the link sets of both ends, exactly.
    pub proof fn lemma_link_unlink(self, cell: Cell, direction: Compass)
        requires
            self.wf(),
            self.layout.has(cell),
            !self.linked(cell, direction),
        ensures
            self.with_link(cell, direction).without_link(cell, direction) == self,
    {
        let opened = self.with_link(cell, direction);
        let closed = opened.without_link(cell, direction);
        if self.layout.neighbour(cell, direction) is Some {
            let n = self.layout.neighbour(cell, direction)->0;
            let back = direction.reversed();
            self.layout.lemma_neighbour_back(cell, direction);
            direction.lemma_reverse_involution(cell.row as int, cell.column as int);
            assert(self.links.contains_key(cell));
            assert(self.links.contains_key(n));
            if self.linked(n, back) {
                assert(self.paired(n, back));
            }
            assert(self.links[cell].insert(direction).remove(direction) =~= self.links[cell]);
            assert(self.links[n].insert(back).remove(back) =~= self.links[n]);
            assert(closed.links =~= self.links);
        }
    }

    /// Which passages are open after `with_link`: those open before, and the
    /// new one from both of its ends.
    pub proof fn lemma_with_link(self, cell: Cell, direction: Compass)
        requires
            self.wf(),
            self.layout.has(cell),
        ensures
            self.with_link(cell, direction).same_layout(self),
            self.with_link(cell, direction).wf(),
            forall|c: Cell, d: Compass| #[trigger]
                self.with_link(cell, direction).linked(c, d) <==> self.linked(c, d) || (
                self.layout.neighbour(cell, direction) matches Some(n) && ((c == cell && d
                    == direction) || (c == n && d == direction.reversed()))),
    {
        let after = self.with_link(cell, direction);
        if self.layout.neighbour(cell, direction) is Some {
            let n = self.layout.neighbour(cell, direction)->0;
            let back = direction.reversed();
            self.layout.lemma_neighbour_back(cell, direction);
            assert(self.links.contains_key(cell));
            assert(self.links.contains_key(n));
            assert forall|c: Cell, d: Compass| #[trigger]
                after.linked(c, d) <==> self.linked(c, d) || (c == cell && d == direction) || (c
                    == n && d == back) by {
                assert(self.links.contains_key(c) <==> self.layout.has(c));
            }
            assert forall|c: Cell| #[trigger] after.links.contains_key(c) <==> after.layout.has(
                c,
            ) by {
                assert(self.links.contains_key(c) <==> self.layout.has(c));
            }
            assert forall|c: Cell, d: Compass| #[trigger] after.linked(c, d) implies after.paired(
                c,
                d,
            ) by {
                if c == cell && d == direction {
                    assert(after.linked(n, back));
                } else if c == n && d == back {
                    direction.lemma_reverse_involution(cell.row as int, cell.column as int);
                    assert(after.linked(cell, direction));
                } else {
                    assert(self.linked(c, d));
                    assert(self.paired(c, d));
                    let m = self.layout.neighbour(c, d)->0;
                    assert(self.linked(m, d.reversed()));
                    assert(after.linked(m, d.reversed()));
                }
            }
        }
    }

    /// Which passages are open after `without_link`: those open before, but
    /// for the one closed from both of its ends.
    pub proof fn lemma_without_link(self, cell: Cell, direction: Compass)
        requires
            self.wf(),
            self.layout.has(cell),
        ensures
            self.without_link(cell, direction).same_layout(self),
            self.without_link(cell, direction).wf(),
            forall|c: Cell, d: Compass| #[trigger]
                self.without_link(cell, direction).linked(c, d) <==> self.linked(c, d) && !(
                self.layout.neighbour(cell, direction) matches Some(n) && ((c == cell && d
                    == direction) || (c == n && d == direction.reversed()))),
    {
        let after = self.without_link(cell, direction);
        if self.layout.neighbour(cell, direction) is Some {
            let n = self.layout.neighbour(cell, direction)->0;
            let back = direction.reversed();
            self.layout.lemma_neighbour_back(cell, direction);
            assert(self.links.contains_key(cell));
            assert(self.links.contains_key(n));
            assert forall|c: Cell, d: Compass| #[trigger]
                after.linked(c, d) <==> self.linked(c, d) && !((c == cell && d == direction) || (c
                    == n && d == back)) by {
                assert(self.links.contains_key(c) <==> self.layout.has(c));
            }
            assert forall|c: Cell| #[trigger] after.links.contains_key(c) <==> after.layout.has(
                c,
            ) by {
                assert(self.links.contains_key(c) <==> self.layout.has(c));
            }
            assert forall|c: Cell, d: Compass| #[trigger] after.linked(c, d) implies after.paired(
                c,
                d,
            ) by {
                assert(self.linked(c, d));
                assert(self.paired(c, d));
                assert(self.layout.has(c));
                let m = self.layout.neighbour(c, d)->0;
                self.layout.lemma_neighbour_back(c, d);
                d.lemma_reverse_involution(c.row as int, c.column as int);
                direction.lemma_reverse_involution(cell.row as int, cell.column as int);
                assert(self.linked(m, d.reversed()));
                if m == cell && d.reversed() == direction {
                    assert(c == n);
                    assert(false);
                }
                if m == n && d.reversed() == back {
                    assert(d == direction);
                    assert(c == cell);
                    assert(false);
                }
                assert(after.linked(m, d.reversed()));
            }
        }
    }
}

/// Where the mask gives one answer for each position, a layout has as many
/// cells in its list as there are positions of the rectangle for which the
/// mask holds.
pub proof fn lemma_cells_count<F: Fn(u32, u32) -> bool>(allowed: F, layout: Layout)
    requires
        layout.wf(),
        masked_by(allowed, layout),
        forall|row: u32, column: u32, one: bool, other: bool|
            call_ensures(allowed, (row, column), one) && call_ensures(
                allowed,
                (row, column),
                other,
            ) ==> one == other,
    ensures
        layout.cell_list().len() == Set::new(
            |cell: Cell|
                cell.row < layout.rows && cell.column < layout.columns && call_ensures(
                    allowed,
                    (cell.row, cell.column),
                    true,
                ),
        ).len(),
{
    layout.lemma_cell_list();
    let held = Set::new(|cell: Cell| layout.has(cell));
    let allowed_at = Set::new(
        |cell: Cell|
            cell.row < layout.rows && cell.column < layout.columns && call_ensures(
                allowed,
                (cell.row, cell.column),
                true,
            ),
    );
    assert forall|cell: Cell| held.contains(cell) <==> allowed_at.contains(cell) by {
        if cell.row < layout.rows && cell.column < layout.columns {
            let there = layout.at(cell.row as int, cell.column as int);
            assert(call_ensures(allowed, (cell.row, cell.column), there is Some));
        }
    }
    assert(held =~= allowed_at);
}

/// The grid that a layout starts as: no passage, no distance.
pub open spec fn blank(layout: Layout) -> GridView {
    GridView {
        layout,
        links: Map::new(|c: Cell| layout.has(c), |c: Cell| Set::<Compass>::empty()),
        distances: Map::empty(),
        max_distance: None,
    }
}

/// The layout of the full rectangle of `rows` by `columns`, nothing masked.
pub open spec fn full(rows: nat, columns: nat) -> Layout {
    Layout {
        rows,
        columns,
        cells: Seq::new(
            rows * columns,
            |i: int| Some(Cell { row: (i / columns as int) as u32, column: (i % columns as int) as u32 }),
        ),
    }
}

/// Positions inside a rectangle have distinct row-major indices.
pub proof fn lemma_slot_unique(columns: int, r1: int, c1: int, r2: int, c2: int)
    requires
        0 <= c1 < columns,
        0 <= c2 < columns,
        slot(columns, r1, c1) == slot(columns, r2, c2),
    ensures
        r1 == r2,
        c1 == c2,
{
    assert(r1 == r2) by (nonlinear_arith)
        requires
            0 <= c1 < columns,
            0 <= c2 < columns,
            r1 * columns + c1 == r2 * columns + c2,
    ;
}

/// `row * columns + column` stays below `rows * columns` inside the rectangle.
pub proof fn lemma_slot_bound(rows: int, columns: int, row: int, column: int)
    requires
        inside(rows, columns, row, column),
    ensures
        0 <= slot(columns, row, column) < rows * columns,
{
    assert(row * columns + columns <= rows * columns) by (nonlinear_arith)
        requires
            0 <= row < rows,
            0 <= columns,
    ;
    assert(0 <= row * columns) by (nonlinear_arith)
        requires
            0 <= row,
            0 <= columns,
    ;
}

/// Every index below `rows * columns` is the slot of the position that its
/// quotient and remainder by `columns` name.
pub proof fn lemma_slot_split(rows: int, columns: int, index: int)
    requires
        0 <= index < rows * columns,
        0 <= rows,
        0 <= columns,
    ensures
        inside(rows, columns, index / columns, index % columns),
        slot(columns, index / columns, index % columns) == index,
{
    assert(columns > 0) by (nonlinear_arith)
        requires
            0 <= index < rows * columns,
            0 <= rows,
            0 <= columns,
    ;
    vstd::arithmetic::div_mod::lemma_fundamental_div_mod(index, columns);
    vstd::arithmetic::div_mod::lemma_div_pos_is_pos(index, columns);
    vstd::arithmetic::div_mod::lemma_mod_bound(index, columns);
    let q = index / columns;
    assert(q < rows) by (nonlinear_arith)
        requires
            index == columns * q + index % columns,
            0 <= index % columns,
            index < rows * columns,
            columns > 0,
    ;
    assert(q * columns == columns * q) by (nonlinear_arith);
}

/// Row-major order: an earlier position has the smaller index.
pub proof fn lemma_slot_order(columns: int, r1: int, c1: int, r2: int, c2: int)
    requires
        0 <= c1 < columns,
        0 <= c2 < columns,
        r1 < r2 || (r1 == r2 && c1 < c2),
    ensures
        slot(columns, r1, c1) < slot(columns, r2, c2),
{
    assert(r1 * columns + c1 < r2 * columns + c2) by (nonlinear_arith)
        requires
            0 <= c1 < columns,
            0 <= c2 < columns,
            r1 < r2 || (r1 == r2 && c1 < c2),
    ;
}

/// True when the mask of `layout` is what `allowed` answers for each position.
pub open spec fn masked_by<F: Fn(u32, u32) -> bool>(allowed: F, layout: Layout) -> bool {
    forall|row: u32, column: u32|
        row < layout.rows && column < layout.columns ==> call_ensures(
            allowed,
            (row, column),
            #[trigger] layout.at(row as int, column as int) is Some,
        )
}

} // verus!
