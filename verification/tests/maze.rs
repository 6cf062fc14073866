use mazes::maze::grid::{Compass, Grid};
use mazes::router::NoOp;

#[test]
fn check_square() {
    let grid = Grid::square(2);

    assert_eq!(grid.rows(), 2);
    assert_eq!(grid.columns(), 2);
}

#[test]
fn check_cell_count() {
    let grid = Grid::grid(2, 3, Grid::allow_all, &mut NoOp {});

    assert_eq!(grid.slots().len(), 6);
}

#[test]
fn check_valid_cell_count() {
    let grid = Grid::grid(2, 3, Grid::allow_all, &mut NoOp {});

    assert_eq!(grid.cells().len(), 6);
}

#[test]
fn check_cell_position() {
    let grid = Grid::grid(2, 3, Grid::allow_all, &mut NoOp {});

    for row in 0..grid.rows() {
        for column in 0..grid.columns() {
            let cell = grid
                .cell(row, column)
                .unwrap_or_else(|| panic!("Missing Cell {},{}", column, row));

            assert_eq!(cell.row(), row);
            assert_eq!(cell.column(), column);
        }
    }
}

#[test]
fn check_bounds() {
    let grid = Grid::square(3);

    assert!(matches!(grid.cell(0, 3), None));
    assert!(matches!(grid.cell(4, 0), None));
}

#[test]
fn check_neighbour_top_left() {
    let grid = Grid::square(3);
    let cell = grid.cell(0, 0).expect("Missing Cell 0,0");
    let neighbours = grid.neighbours(cell);

    assert!(matches!(neighbours.get(&Compass::North), None));
    assert!(matches!(neighbours.get(&Compass::West), None));
    assert_eq!(neighbours.get(&Compass::South), grid.cell(1, 0));
    assert_eq!(neighbours.get(&Compass::East), grid.cell(0, 1));
}

#[test]
fn check_neighbour_top_right() {
    let grid = Grid::square(3);
    let cell = grid.cell(0, 2).expect("Missing Cell");
    let neighbours = grid.neighbours(cell);

    assert!(matches!(neighbours.get(&Compass::North), None));
    assert_eq!(neighbours.get(&Compass::West), grid.cell(0, 1));
    assert_eq!(neighbours.get(&Compass::South), grid.cell(1, 2));
    assert!(matches!(neighbours.get(&Compass::East), None));
}

#[test]
fn check_neighbour_center() {
    let grid = Grid::square(3);
    let cell = grid.cell(1, 1).expect("Missing Cell 1,1");
    let neighbours = grid.neighbours(cell);

    assert_eq!(neighbours.get(&Compass::North), grid.cell(0, 1));
    assert_eq!(neighbours.get(&Compass::West), grid.cell(1, 0));
    assert_eq!(neighbours.get(&Compass::South), grid.cell(2, 1));
    assert_eq!(neighbours.get(&Compass::East), grid.cell(1, 2));
}

#[test]
fn check_neighbour_bottom_left() {
    let grid = Grid::square(3);
    let cell = grid.cell(2, 0).expect("Missing Cell");
    let neighbours = grid.neighbours(cell);

    assert_eq!(neighbours.get(&Compass::North), grid.cell(1, 0));
    assert!(matches!(neighbours.get(&Compass::West), None));
    assert!(matches!(neighbours.get(&Compass::South), None));
    assert_eq!(neighbours.get(&Compass::East), grid.cell(2, 1));
}

#[test]
fn check_neighbour_bottom_right() {
    let grid = Grid::square(3);
    let cell = grid.cell(2, 2).expect("Missing Cell 2,2");
    let neighbours = grid.neighbours(cell);

    assert_eq!(neighbours.get(&Compass::North), grid.cell(1, 2));
    assert_eq!(neighbours.get(&Compass::West), grid.cell(2, 1));
    assert!(matches!(neighbours.get(&Compass::South), None));
    assert!(matches!(neighbours.get(&Compass::East), None));
}

#[test]
fn check_neighbours_top_left() {
    let grid = Grid::square(3);
    let cell = grid.cell(0, 0).expect("Missing Cell 0,0");
    let neighbours = grid.neighbours(cell);

    assert!(!neighbours.contains_key(&Compass::North));
    assert!(neighbours.contains_key(&Compass::East));
    assert!(neighbours.contains_key(&Compass::South));
    assert!(!neighbours.contains_key(&Compass::West));

    let neighbour = neighbours.get(&Compass::East);
    assert_eq!(neighbour.expect("Missing Cell 0,1").coords(), (0, 1));
}

#[test]
fn check_neighbours_center() {
    let grid = Grid::square(3);
    let cell = grid.cell(1, 1).expect("Missing Cell 1,1");
    let neighbours = grid.neighbours(cell);

    assert!(neighbours.contains_key(&Compass::North));
    assert!(neighbours.contains_key(&Compass::East));
    assert!(neighbours.contains_key(&Compass::South));
    assert!(neighbours.contains_key(&Compass::West));
}

#[test]
fn check_neighbours_bottom_right() {
    let grid = Grid::square(3);
    let cell = grid.cell(2, 2).expect("Missing Cell 2,2");
    let neighbours = grid.neighbours(cell);

    assert!(neighbours.contains_key(&Compass::North));
    assert!(!neighbours.contains_key(&Compass::East));
    assert!(!neighbours.contains_key(&Compass::South));
    assert!(neighbours.contains_key(&Compass::West));
}

#[test]
fn check_masked() {
    let alternate = |r, c| r % 2 != c % 2;
    let grid = Grid::grid(2, 3, alternate, &mut NoOp {});

    assert_eq!(grid.slots().len(), 6);
    assert_eq!(grid.cells().len(), 3);
    assert!(matches!(grid.cell(0, 0), None));
    assert!(matches!(grid.cell(0, 1), Some(_)));
}

#[test]
fn check_link() {
    let mut grid = Grid::square(2);

    let cell_01 = *grid.cell(0, 1).expect("Missing Cell 0,1");
    let cell_11 = *grid.cell(1, 1).expect("Missing Cell 1,1");

    // add link from 1,1 North
    assert!(matches!(grid.link_cell(&cell_11, Compass::North), Some(_)));

    assert!(grid.links(&cell_01).contains(&Compass::South));
    assert!(grid.links(&cell_11).contains(&Compass::North));
}

#[test]
fn check_invalid_link() {
    let mut grid = Grid::square(2);

    let cell_01 = *grid.cell(0, 1).expect("Missing Cell 0,1");

    // add link from 0,1 North
    assert!(matches!(grid.link_cell(&cell_01, Compass::North), None));
    assert!(grid.links(&cell_01).is_empty());
}

#[test]
fn check_unlink() {
    let mut grid = Grid::square(2);

    let cell_01 = *grid.cell(0, 1).expect("Missing Cell 0,1");
    let cell_11 = *grid.cell(1, 1).expect("Missing Cell 1,1");

    // add link from 1,1 North
    assert_eq!(
        grid.link_cell(&cell_11, Compass::North)
            .expect("Missing Cell 1,1"),
        cell_01
    );

    // remove the link from the South
    assert_eq!(
        grid.unlink_cell(&cell_01, Compass::South)
            .expect("Missing Cell 0,1"),
        cell_11
    );

    assert!(grid.links(&cell_01).is_empty());
    assert!(grid.links(&cell_11).is_empty());
}

#[test]
fn check_string_masked() {
    let grid = Grid::grid(2, 2, |r, c| r != 0 || c != 0, &mut NoOp {});

    assert_eq!(
        format!("\n{}", grid.to_string()),
        r#"
+---+---+
|███|   |
+---+---+
|   |   |
+---+---+
"#
    );
}

#[test]
fn check_string_linked() {
    let mut grid = Grid::square(2);

    let cell_00 = *grid.cell(0, 0).expect("Missing Cell 0,0");
    let cell_11 = *grid.cell(1, 1).expect("Missing Cell 1,1");

    // add links from 0,0 East and 1,1 North
    grid.link_cell(&cell_00, Compass::East);
    grid.link_cell(&cell_11, Compass::North);
    assert_eq!(
        format!("\n{}", grid.to_string()),
        r#"
+---+---+
|       |
+---+   +
|   |   |
+---+---+
"#
    );
}
