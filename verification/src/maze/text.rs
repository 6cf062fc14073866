//! The text picture of a grid: three characters for each cell, framed by
//! corners and dividers that are left out exactly where a passage is open.

use vstd::prelude::*;
use crate::maze::Cell;
use crate::maze::grid::{Compass, Grid};
use crate::maze::view::GridView;

verus! {

/// The glyph that separates two cells of one row.
pub const VDIV: char = '|';

/// The glyph that separates two cells of one column.
pub const HDIV: char = '-';

/// The glyph at every corner of a cell.
pub const CORNER: char = '+';

/// The glyph that fills the inside of a cell.
pub const CELL: char = ' ';

/// The glyph that stands where a divider is left out.
pub const LINK: char = ' ';

/// The glyph that fills a masked slot.
pub const NONE: char = '\u{2588}';

/// The number of glyphs between two dividers.
pub const SCALE: u32 = 3;

/// The kinds of line that make up the picture of a row.
#[derive(Debug, PartialEq, Eq, Structural, Clone, Copy)]
pub enum Line {
    /// The border above the first row.
    Top,
    /// The insides of the cells and the dividers between them.
    Body,
    /// The border below a row.
    Base,
}

/// `String::push` of the standard library appends the one character to the
/// end of the string and changes nothing else.
pub assume_specification[ String::push ](s: &mut String, c: char)
    ensures
        final(s)@ == old(s)@.push(c),
;

/// The digit that stands for `value` in base 36: `0` to `9`, then `a` to
/// `z`; none from 36 on.
pub open spec fn digit36(value: u32) -> Option<char> {
    if value < 10 {
        Some((48 + value) as char)
    } else if value < 36 {
        Some((87 + value) as char)
    } else {
        None
    }
}

/// The digit that stands for `value` in base 36, if it has one.
pub fn to_digit36(value: u32) -> (digit: Option<char>)
    ensures
        digit == digit36(value),
{
    if value < 10 {
        Some((48u8 + value as u8) as char)
    } else if value < 36 {
        Some((87u8 + value as u8) as char)
    } else {
        None
    }
}

/// `scale` glyphs: `filling.0` in the middle, `filling.1` around it.
pub open spec fn span(scale: nat, filling: (char, char)) -> Seq<char> {
    Seq::new(
        scale,
        |i: int|
            if i == scale / 2 {
                filling.0
            } else {
                filling.1
            },
    )
}

impl GridView {
    /// The glyph that follows the slot `cell` on a line of the given kind.
    pub open spec fn joint(self, line: Line, cell: Option<Cell>) -> char {
        match line {
            Line::Body => if cell matches Some(c) && self.linked(c, Compass::East) {
                LINK
            } else {
                VDIV
            },
            _ => CORNER,
        }
    }

    /// The middle glyph and the padding of the slot `cell` on a line of the
    /// given kind.
    pub open spec fn filling(self, line: Line, cell: Option<Cell>) -> (char, char) {
        match line {
            Line::Top => (HDIV, HDIV),
            Line::Body => match cell {
                Some(c) => if self.distances.contains_key(c) && digit36(self.distances[c])
                    is Some {
                    (digit36(self.distances[c])->0, CELL)
                } else {
                    (CELL, CELL)
                },
                None => (NONE, NONE),
            },
            Line::Base => if cell matches Some(c) && self.linked(c, Compass::South) {
                (LINK, LINK)
            } else {
                (HDIV, HDIV)
            },
        }
    }

    /// The start of one line: the opening glyph and the first `upto` slots
    /// of `row`, each followed by its joint.
    pub open spec fn text_cells(self, scale: nat, row: int, line: Line, upto: int) -> Seq<char>
        decreases upto,
    {
        if upto <= 0 {
            seq![self.joint(line, None)]
        } else {
            let cell = self.layout.at(row, upto - 1);
            self.text_cells(scale, row, line, upto - 1) + span(scale, self.filling(line, cell))
                + seq![self.joint(line, cell)]
        }
    }

    /// One whole line of the picture of `row`, with its line feed.
    pub open spec fn text_line(self, scale: nat, row: int, line: Line) -> Seq<char> {
        self.text_cells(scale, row, line, self.layout.columns as int) + seq!['\n']
    }

    /// The picture of the first `upto` rows: the top border once, then a
    /// body line and a base line for each row.
    pub open spec fn text_rows(self, upto: int) -> Seq<char>
        decreases upto,
    {
        if upto <= 0 {
            Seq::empty()
        } else {
            let row = upto - 1;
            let top = if row == 0 {
                self.text_line(SCALE as nat, row, Line::Top)
            } else {
                Seq::empty()
            };
            self.text_rows(row) + top + self.text_line(SCALE as nat, row, Line::Body)
                + self.text_line(SCALE as nat, row, Line::Base)
        }
    }

    /// The whole picture.
    pub open spec fn text(self) -> Seq<char> {
        self.text_rows(self.layout.rows as int)
    }
}

impl Grid {
    /// The glyph that follows the slot `cell` on a line of the given kind.
    pub fn joint(&self, line: Line, cell: &Option<Cell>) -> (glyph: char)
        requires
            self.wf(),
            cell matches Some(c) ==> self@.layout.has(*c),
        ensures
            glyph == self@.joint(line, *cell),
    {
        match line {
            Line::Body => if self.has_link(cell, Compass::East) {
                LINK
            } else {
                VDIV
            },
            _ => CORNER,
        }
    }

    /// The middle glyph and the padding of the slot `cell` on a line of the
    /// given kind.
    pub fn filling(&self, line: Line, cell: &Option<Cell>) -> (glyphs: (char, char))
        requires
            self.wf(),
            cell matches Some(c) ==> self@.layout.has(*c),
        ensures
            glyphs == self@.filling(line, *cell),
    {
        match line {
            Line::Top => (HDIV, HDIV),
            Line::Body => match cell {
                Some(c) => {
                    if let Some(distance) = self.distance(c) {
                        if let Some(digit) = to_digit36(distance) {
                            return (digit, CELL);
                        }
                    }
                    (CELL, CELL)
                },
                None => (NONE, NONE),
            },
            Line::Base => if self.has_link(cell, Compass::South) {
                (LINK, LINK)
            } else {
                (HDIV, HDIV)
            },
        }
    }

    /// Appends one line of the picture of `row` to `s`: the opening glyph,
    /// then for each slot `scale` glyphs of filling and a joint, then a line
    /// feed.
    pub fn write_row(&self, s: &mut String, scale: u32, row: u32, line: Line)
        requires
            self.wf(),
            row < self@.layout.rows,
        ensures
            final(s)@ == old(s)@ + self@.text_line(scale as nat, row as int, line),
    {
        let columns = self.columns();
        s.push(self.joint(line, &None));
        let mut column: u32 = 0;
        while column < columns
            invariant
                self.wf(),
                row < self@.layout.rows,
                columns == self@.layout.columns,
                column <= columns,
                s@ == old(s)@ + self@.text_cells(scale as nat, row as int, line, column as int),
            decreases columns - column,
        {
            let cell = match self.cell(row, column) {
                Some(c) => Some(*c),
                None => None,
            };
            let glyphs = self.filling(line, &cell);
            let ghost start = s@;
            let mut i: u32 = 0;
            while i < scale
                invariant
                    i <= scale,
                    s@ == start + span(scale as nat, glyphs).subrange(0, i as int),
                decreases scale - i,
            {
                s.push(
                    if i == scale / 2 {
                        glyphs.0
                    } else {
                        glyphs.1
                    },
                );
                assert(span(scale as nat, glyphs).subrange(0, i as int + 1) =~= span(
                    scale as nat,
                    glyphs,
                ).subrange(0, i as int).push(span(scale as nat, glyphs)[i as int]));
                i = i + 1;
            }
            assert(span(scale as nat, glyphs).subrange(0, scale as int) =~= span(
                scale as nat,
                glyphs,
            ));
            s.push(self.joint(line, &cell));
            assert(s@ =~= old(s)@ + self@.text_cells(
                scale as nat,
                row as int,
                line,
                column as int + 1,
            ));
            column = column + 1;
        }
        s.push('\n');
        assert(s@ =~= old(s)@ + self@.text_line(scale as nat, row as int, line));
    }

    /// The text picture of the grid.
    pub fn to_string(&self) -> (text: String)
        requires
            self.wf(),
        ensures
            text@ == self@.text(),
    {
        let rows = self.rows();
        let mut text = String::new();
        let mut row: u32 = 0;
        while row < rows
            invariant
                self.wf(),
                rows == self@.layout.rows,
                row <= rows,
                text@ == self@.text_rows(row as int),
            decreases rows - row,
        {
            let ghost start = text@;
            if row == 0 {
                self.write_row(&mut text, SCALE, row, Line::Top);
            }
            self.write_row(&mut text, SCALE, row, Line::Body);
            self.write_row(&mut text, SCALE, row, Line::Base);
            assert(text@ =~= self@.text_rows(row as int + 1));
            row = row + 1;
        }
        text
    }
}

} // verus!
