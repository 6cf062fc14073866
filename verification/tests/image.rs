use imageproc::image::Rgb;
use mazes::maze::grid::{Compass, Grid};
use mazes::maze::image::{BLACK, BLUE, GREY, WHITE};
use mazes::router::NoOp;
use mazes::solver::Distances;

#[test]
fn grid_check_draw() {
    let mut grid = Grid::grid(
        5,
        5,
        |r, c| !((r == 0 || r == 4) && (c == 0 || c == 4)),
        &mut NoOp {},
    );
    let cell = *grid.cell(2, 2).expect("Missing Cell 2,2");
    grid.link_cell(&cell, Compass::North);
    grid.link_cell(&cell, Compass::South);
    grid.link_cell(&cell, Compass::East);
    grid.link_cell(&cell, Compass::West);

    let image = grid.draw_image(&vec![]).image;

    assert_eq!(image.width(), 70);
    assert_eq!(image.height(), 70);
    assert_eq!(image.get_pixel(5, 5), &Rgb([128u8, 128u8, 128u8])); // border = grey
    assert_eq!(image.get_pixel(15, 15), &Rgb([0u8, 0u8, 0u8])); // masked cell = black
    assert_eq!(image.get_pixel(25, 25), &Rgb([255u8, 255u8, 255u8])); // valid cell = white
}

#[test]
fn check_draw() {
    let mut grid = Grid::grid(
        5,
        5,
        |r, c| !((r == 0 || r == 4) && (c == 0 || c == 4)),
        &mut NoOp {},
    );
    let cell = *grid.cell(2, 2).expect("Missing Cell 2,2");
    grid.link_cell(&cell, Compass::North);
    grid.link_cell(&cell, Compass::South);
    grid.link_cell(&cell, Compass::East);
    grid.link_cell(&cell, Compass::West);

    let image = grid.draw_image(&Vec::new()).image;

    assert_eq!(image.width(), 70);
    assert_eq!(image.height(), 70);
    assert_eq!(image.get_pixel(5, 5), &Rgb([128u8, 128u8, 128u8])); // border = grey
    assert_eq!(image.get_pixel(15, 15), &Rgb([0u8, 0u8, 0u8])); // masked cell = black
    assert_eq!(image.get_pixel(25, 25), &Rgb([255u8, 255u8, 255u8])); // valid cell = white
}

fn rgb(colour: (u8, u8, u8)) -> Rgb<u8> {
    Rgb([colour.0, colour.1, colour.2])
}

#[test]
fn walls_are_cut_exactly_where_a_passage_is_open() {
    let mut grid = Grid::square(2);
    let cell_00 = *grid.cell(0, 0).unwrap();
    grid.link_cell(&cell_00, Compass::East);

    let image = grid.draw_image(&vec![]).image;

    assert_eq!((image.width(), image.height()), (40, 40));
    // the ground and the frame
    assert_eq!(image.get_pixel(0, 0), &rgb(GREY));
    assert_eq!(image.get_pixel(8, 20), &rgb(GREY));
    assert_eq!(image.get_pixel(9, 9), &rgb(BLACK));
    assert_eq!(image.get_pixel(29, 29), &rgb(BLACK));
    assert_eq!(image.get_pixel(30, 29), &rgb(GREY));
    assert_eq!(image.get_pixel(29, 30), &rgb(GREY));
    assert_eq!(image.get_pixel(39, 39), &rgb(GREY));
    // the inside of the first cell
    assert_eq!(image.get_pixel(10, 11), &rgb(BLACK));
    assert_eq!(image.get_pixel(11, 11), &rgb(WHITE));
    assert_eq!(image.get_pixel(17, 17), &rgb(WHITE));
    assert_eq!(image.get_pixel(18, 17), &rgb(BLACK));
    // the wall between the two cells of the first row is open three pixels high
    for x in 18..=20 {
        assert_eq!(image.get_pixel(x, 12), &rgb(BLACK));
        assert_eq!(image.get_pixel(x, 13), &rgb(WHITE));
        assert_eq!(image.get_pixel(x, 15), &rgb(WHITE));
        assert_eq!(image.get_pixel(x, 16), &rgb(BLACK));
    }
    assert_eq!(image.get_pixel(21, 14), &rgb(WHITE));
    // the wall between the two cells of the second row is closed
    for x in 18..=20 {
        assert_eq!(image.get_pixel(x, 24), &rgb(BLACK));
    }
    // so is the wall below the first cell
    for y in 18..=20 {
        assert_eq!(image.get_pixel(14, y), &rgb(BLACK));
    }
}

#[test]
fn a_passage_south_cuts_the_wall_below() {
    let mut grid = Grid::square(2);
    let cell_01 = *grid.cell(0, 1).unwrap();
    grid.link_cell(&cell_01, Compass::South);

    let image = grid.draw_image(&vec![]).image;

    for y in 18..=20 {
        assert_eq!(image.get_pixel(22, y), &rgb(BLACK));
        assert_eq!(image.get_pixel(23, y), &rgb(WHITE));
        assert_eq!(image.get_pixel(25, y), &rgb(WHITE));
        assert_eq!(image.get_pixel(26, y), &rgb(BLACK));
        assert_eq!(image.get_pixel(14, y), &rgb(BLACK));
    }
}

#[test]
fn cells_with_a_distance_take_their_shade() {
    let mut grid = Grid::square(2);
    let cell_00 = *grid.cell(0, 0).unwrap();
    let cell_01 = *grid.cell(0, 1).unwrap();
    grid.link_cell(&cell_00, Compass::East);
    grid.apply_distances(Distances::new(vec![(cell_00, 0), (cell_01, 2)]));
    let shades = vec![WHITE, (127, 127, 255), BLUE];

    let image = grid.draw_image(&shades).image;

    assert_eq!(image.get_pixel(14, 14), &rgb(WHITE));
    assert_eq!(image.get_pixel(19, 14), &rgb(WHITE));
    assert_eq!(image.get_pixel(24, 14), &rgb(BLUE));
    assert_eq!(image.get_pixel(14, 24), &rgb(WHITE));
    assert_eq!(image.get_pixel(19, 24), &rgb(BLACK));
}

#[test]
fn a_grid_without_cells_is_a_frame_on_the_ground() {
    let grid = Grid::grid(0, 0, Grid::allow_all, &mut NoOp {});

    let image = grid.draw_image(&vec![]).image;

    assert_eq!((image.width(), image.height()), (20, 20));
    assert_eq!(image.get_pixel(8, 9), &rgb(GREY));
    assert_eq!(image.get_pixel(9, 9), &rgb(BLACK));
    assert_eq!(image.get_pixel(10, 9), &rgb(GREY));
}
