//! The raster picture of a grid: a square of pixels for each cell on a grey
//! ground, framed in black, with the wall between two cells left out exactly
//! where a passage is open.

use vstd::prelude::*;
use imageproc::drawing;
use imageproc::image::{ImageBuffer, Rgb, RgbImage};
use imageproc::rect::Rect;
use crate::maze::{slot, Cell};
use crate::maze::grid::{Compass, Grid};
use crate::maze::view::{lemma_slot_unique, GridView};

verus! {

/// A colour: its red, green and blue parts.
pub type Colour = (u8, u8, u8);

/// The colour of a cell without a distance.
pub const WHITE: Colour = (255, 255, 255);

/// The colour of the walls.
pub const BLACK: Colour = (0, 0, 0);

/// The colour of the ground around the maze.
pub const GREY: Colour = (128, 128, 128);

/// The colour of the cell farthest from the start.
pub const BLUE: Colour = (0, 0, 255);

/// The number of pixels along the side of a cell, its walls included.
pub const SIZE: u32 = 10;

/// An image of the image crate with three channels of eight bits. It is
/// opaque to the proofs, which speak of it through `canvas_size` and
/// `canvas_pixels`.
#[verifier::external_body]
pub struct Canvas {
    pub image: RgbImage,
}

/// The width and height of an image.
pub uninterp spec fn canvas_size(canvas: Canvas) -> (u32, u32);

/// The colour of each pixel of an image, by column and row.
pub uninterp spec fn canvas_pixels(canvas: Canvas) -> Map<(int, int), Colour>;

/// The pixels of an image after the rectangle of `width` by `height` at
/// `(x, y)` has been filled with `colour`, as far as it lies on the image.
pub open spec fn filled(
    pixels: Map<(int, int), Colour>,
    x: int,
    y: int,
    width: int,
    height: int,
    colour: Colour,
) -> Map<(int, int), Colour> {
    Map::new(
        |p: (int, int)| pixels.contains_key(p),
        |p: (int, int)|
            if x <= p.0 < x + width && y <= p.1 < y + height {
                colour
            } else {
                pixels[p]
            },
    )
}

/// `ImageBuffer::from_pixel` of the image crate: an image of the given
/// width and height, every pixel of which has the given colour. The call
/// fails where the image has more bytes than a vector can hold.
#[verifier::external_body]
pub(crate) fn blank_canvas(width: u32, height: u32, colour: Colour) -> (canvas: Canvas)
    requires
        3 * width * height <= isize::MAX,
    ensures
        canvas_size(canvas) == (width, height),
        canvas_pixels(canvas) == Map::new(
            |p: (int, int)| 0 <= p.0 < width && 0 <= p.1 < height,
            |p: (int, int)| colour,
        ),
{
    Canvas { image: ImageBuffer::from_pixel(width, height, Rgb([colour.0, colour.1, colour.2])) }
}

/// `draw_filled_rect_mut` of imageproc, on the rectangle that
/// `Rect::at(x, y).of_size(width, height)` makes: every pixel of the image
/// that lies in the rectangle takes the given colour, and no other pixel
/// changes. The call fails on an empty rectangle and on an image without
/// pixels, and it computes in `i32`: the sides of both and the far corner
/// of the rectangle fit that range.
#[verifier::external_body]
pub(crate) fn fill_rect(
    canvas: &mut Canvas,
    x: i32,
    y: i32,
    width: u32,
    height: u32,
    colour: Colour,
)
    requires
        0 < width <= i32::MAX,
        0 < height <= i32::MAX,
        x + width <= i32::MAX,
        y + height <= i32::MAX,
        0 < canvas_size(*old(canvas)).0 <= i32::MAX,
        0 < canvas_size(*old(canvas)).1 <= i32::MAX,
    ensures
        canvas_size(*final(canvas)) == canvas_size(*old(canvas)),
        canvas_pixels(*final(canvas)) == filled(
            canvas_pixels(*old(canvas)),
            x as int,
            y as int,
            width as int,
            height as int,
            colour,
        ),
{
    drawing::draw_filled_rect_mut(
        &mut canvas.image,
        Rect::at(x, y).of_size(width, height),
        Rgb([colour.0, colour.1, colour.2]),
    );
}

impl GridView {
    /// The colour of `cell`: white without a distance, and with one the
    /// shade that `shades` holds for it.
    pub open spec fn shade(self, shades: Seq<Colour>, cell: Cell) -> Colour {
        if self.distances.contains_key(cell) {
            shades[self.distances[cell] as int]
        } else {
            WHITE
        }
    }

    /// True when the pixel `(x, y)` belongs to `cell`: it lies inside the
    /// cell, or in its east wall where a passage leads east, or in its
    /// south wall where a passage leads south.
    pub open spec fn paints(self, cell: Cell, x: int, y: int) -> bool {
        let left = SIZE * (cell.column + 1);
        let top = SIZE * (cell.row + 1);
        ||| (left + 1 <= x <= left + 7 && top + 1 <= y <= top + 7)
        ||| (self.linked(cell, Compass::East) && left + 8 <= x <= left + 10 && top + 3 <= y
            <= top + 5)
        ||| (self.linked(cell, Compass::South) && left + 3 <= x <= left + 5 && top + 8 <= y
            <= top + 10)
    }

    /// The cell that the pixel `(x, y)` belongs to, if it belongs to one.
    pub open spec fn painter(self, x: int, y: int) -> Option<Cell> {
        match self.layout.at((y - 1) / (SIZE as int) - 1, (x - 1) / (SIZE as int) - 1) {
            Some(cell) => if self.paints(cell, x, y) {
                Some(cell)
            } else {
                None
            },
            None => None,
        }
    }

    /// The colour of a pixel that belongs to no cell: black on the frame
    /// and the walls, grey around them.
    pub open spec fn ground(self, x: int, y: int) -> Colour {
        if SIZE - 1 <= x <= SIZE * (self.layout.columns + 1) - 1 && SIZE - 1 <= y <= SIZE * (
        self.layout.rows + 1) - 1 {
            BLACK
        } else {
            GREY
        }
    }

    /// The picture when only the cells in the first `upto` slots have been
    /// painted.
    pub open spec fn painted(self, shades: Seq<Colour>, upto: int) -> Map<(int, int), Colour> {
        Map::new(
            |p: (int, int)|
                0 <= p.0 < SIZE * (self.layout.columns + 2) && 0 <= p.1 < SIZE * (
                self.layout.rows + 2),
            |p: (int, int)|
                match self.painter(p.0, p.1) {
                    Some(cell) => if slot(
                        self.layout.columns as int,
                        cell.row as int,
                        cell.column as int,
                    ) < upto {
                        self.shade(shades, cell)
                    } else {
                        self.ground(p.0, p.1)
                    },
                    None => self.ground(p.0, p.1),
                },
        )
    }

    /// The whole picture: every pixel that belongs to a cell in the colour
    /// of the cell, every other pixel in the colour of the ground.
    pub open spec fn picture(self, shades: Seq<Colour>) -> Map<(int, int), Colour> {
        Map::new(
            |p: (int, int)|
                0 <= p.0 < SIZE * (self.layout.columns + 2) && 0 <= p.1 < SIZE * (
                self.layout.rows + 2),
            |p: (int, int)|
                match self.painter(p.0, p.1) {
                    Some(cell) => self.shade(shades, cell),
                    None => self.ground(p.0, p.1),
                },
        )
    }
}

impl Grid {
    /// Draws the grid: grey ground, the maze in black, and each cell cut
    /// out in its colour together with the walls that its passages to the
    /// east and south go through. `shades` holds the colour for each
    /// distance that occurs.
    pub fn draw_image(&self, shades: &Vec<Colour>) -> (canvas: Canvas)
        requires
            self.wf(),
            SIZE * (self@.layout.columns + 2) <= i32::MAX,
            SIZE * (self@.layout.rows + 2) <= i32::MAX,
            3 * (SIZE * (self@.layout.columns + 2)) * (SIZE * (self@.layout.rows + 2))
                <= isize::MAX,
            forall|cell: Cell| #[trigger]
                self@.distances.contains_key(cell) ==> self@.distances[cell] < shades@.len(),
        ensures
            canvas_size(canvas) == (
                (SIZE * (self@.layout.columns + 2)) as u32,
                (SIZE * (self@.layout.rows + 2)) as u32,
            ),
            canvas_pixels(canvas) == self@.picture(shades@),
    {
        let size = SIZE;
        let rows = self.rows();
        let columns = self.columns();
        let ghost view = self@;
        let mut canvas = blank_canvas(size * (columns + 2), size * (rows + 2), GREY);
        fill_rect(
            &mut canvas,
            (size - 1) as i32,
            (size - 1) as i32,
            (size * columns) + 1,
            (size * rows) + 1,
            BLACK,
        );
        assert(canvas_pixels(canvas) =~= view.painted(shades@, 0));
        let cells = self.slots();
        let mut i: usize = 0;
        while i < cells.len()
            invariant
                i <= cells@.len(),
                self.wf(),
                view == self@,
                cells@ == view.layout.cells,
                rows == view.layout.rows,
                columns == view.layout.columns,
                size == SIZE,
                SIZE * (columns + 2) <= i32::MAX,
                SIZE * (rows + 2) <= i32::MAX,
                canvas_size(canvas) == ((SIZE * (columns + 2)) as u32, (SIZE * (rows + 2)) as u32),
                forall|cell: Cell| #[trigger]
                    view.distances.contains_key(cell) ==> view.distances[cell] < shades@.len(),
                canvas_pixels(canvas) == view.painted(shades@, i as int),
            decreases cells@.len() - i,
        {
            proof {
                view.layout.lemma_slot_holds(i as int);
            }
            let cell = cells[i];
            if let Some(c) = cell {
                let colour = if let Some(distance) = self.distance(&c) {
                    shades[distance as usize]
                } else {
                    WHITE
                };
                let ghost before = canvas_pixels(canvas);
                let east = self.has_link(&cell, Compass::East);
                let south = self.has_link(&cell, Compass::South);
                // cut out the cell
                fill_rect(
                    &mut canvas,
                    (size * (c.column() + 1) + 1) as i32,
                    (size * (c.row() + 1) + 1) as i32,
                    size - 3,
                    size - 3,
                    colour,
                );
                // cut out the wall to the east
                if east {
                    fill_rect(
                        &mut canvas,
                        (size * (c.column() + 2) - 2) as i32,
                        (size * (c.row() + 1) + 3) as i32,
                        3,
                        size - 7,
                        colour,
                    );
                }
                // cut out the wall to the south
                if south {
                    fill_rect(
                        &mut canvas,
                        (size * (c.column() + 1) + 3) as i32,
                        (size * (c.row() + 2) - 2) as i32,
                        size - 7,
                        3,
                        colour,
                    );
                }
                proof {
                    lemma_painted_step(view, shades@, i as int, c, before, canvas_pixels(canvas));
                }
            } else {
                proof {
                    lemma_painted_skip(view, shades@, i as int);
                }
            }
            i = i + 1;
        }
        proof {
            lemma_painted_all(view, shades@);
        }
        canvas
    }
}

/// Painting the cell in slot `upto` turns the picture of the first `upto`
/// slots into that of the first `upto + 1`.
proof fn lemma_painted_step(
    view: GridView,
    shades: Seq<Colour>,
    upto: int,
    cell: Cell,
    before: Map<(int, int), Colour>,
    after: Map<(int, int), Colour>,
)
    requires
        view.wf(),
        view.layout.has(cell),
        slot(view.layout.columns as int, cell.row as int, cell.column as int) == upto,
        before == view.painted(shades, upto),
        forall|p: (int, int)| #[trigger] after.contains_key(p) <==> before.contains_key(p),
        forall|p: (int, int)| #[trigger]
            after.contains_key(p) ==> after[p] == if view.paints(cell, p.0, p.1) {
                view.shade(shades, cell)
            } else {
                before[p]
            },
    ensures
        after == view.painted(shades, upto + 1),
{
    let wanted = view.painted(shades, upto + 1);
    assert forall|p: (int, int)| wanted.contains_key(p) implies #[trigger] after[p]
        == wanted[p] by {
        assert(after.contains_key(p));
        if view.paints(cell, p.0, p.1) {
            lemma_painter(view, cell, p.0, p.1);
        } else {
            match view.painter(p.0, p.1) {
                Some(other) => {
                    lemma_painter_has(view, p.0, p.1);
                    if other != cell {
                        view.layout.lemma_has_slot(other);
                        view.layout.lemma_has_slot(cell);
                        if slot(
                            view.layout.columns as int,
                            other.row as int,
                            other.column as int,
                        ) == upto {
                            lemma_slot_unique(
                                view.layout.columns as int,
                                other.row as int,
                                other.column as int,
                                cell.row as int,
                                cell.column as int,
                            );
                        }
                    }
                },
                None => {},
            }
        }
    }
    assert(after =~= wanted);
}

/// A masked slot paints nothing.
proof fn lemma_painted_skip(view: GridView, shades: Seq<Colour>, upto: int)
    requires
        view.wf(),
        0 <= upto < view.layout.cells.len(),
        view.layout.cells[upto] is None,
    ensures
        view.painted(shades, upto) == view.painted(shades, upto + 1),
{
    let one = view.painted(shades, upto);
    let other = view.painted(shades, upto + 1);
    assert forall|p: (int, int)| one.contains_key(p) implies #[trigger] one[p] == other[p] by {
        match view.painter(p.0, p.1) {
            Some(cell) => {
                lemma_painter_has(view, p.0, p.1);
                view.layout.lemma_has_slot(cell);
            },
            None => {},
        }
    }
    assert(one =~= other);
}

/// Once every slot is painted the picture is whole.
proof fn lemma_painted_all(view: GridView, shades: Seq<Colour>)
    requires
        view.wf(),
    ensures
        view.painted(shades, view.layout.cells.len() as int) == view.picture(shades),
{
    let one = view.painted(shades, view.layout.cells.len() as int);
    let other = view.picture(shades);
    assert forall|p: (int, int)| one.contains_key(p) implies #[trigger] one[p] == other[p] by {
        match view.painter(p.0, p.1) {
            Some(cell) => {
                lemma_painter_has(view, p.0, p.1);
                view.layout.lemma_has_slot(cell);
            },
            None => {},
        }
    }
    assert(one =~= other);
}

/// The painter of a pixel is a cell of the grid.
proof fn lemma_painter_has(view: GridView, x: int, y: int)
    requires
        view.wf(),
        view.painter(x, y) is Some,
    ensures
        view.layout.has(view.painter(x, y)->0),
{
    let row = (y - 1) / (SIZE as int) - 1;
    let column = (x - 1) / (SIZE as int) - 1;
    let cell = view.layout.at(row, column)->0;
    assert(cell.row == row && cell.column == column);
}

/// A pixel that a cell of the grid paints has that cell for its painter.
proof fn lemma_painter(view: GridView, cell: Cell, x: int, y: int)
    requires
        view.wf(),
        view.layout.has(cell),
        view.paints(cell, x, y),
    ensures
        view.painter(x, y) == Some(cell),
{
    let left = SIZE * (cell.column + 1);
    let top = SIZE * (cell.row + 1);
    assert(left + 1 <= x <= left + 10);
    assert(top + 1 <= y <= top + 10);
    assert((x - 1) / (SIZE as int) == cell.column + 1);
    assert((y - 1) / (SIZE as int) == cell.row + 1);
}

} // verus!
