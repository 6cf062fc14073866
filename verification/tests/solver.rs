use mazes::maze::grid::{Compass, Grid};
use mazes::maze::Cell;
use mazes::router::dice::Dice;
use mazes::router::sidewinder::SideWinder;
use mazes::solver::dijkstra::Dijkstra;
use mazes::solver::{Distances, SimpleSolver, Solver};
use rand::rngs::mock::StepRng;
use std::collections::VecDeque;

#[test]
fn check_distances_cell() {
    let grid = Grid::square(4);
    let distances = SimpleSolver {}.solve(&grid, (0, 0));

    assert_eq!(
        distances.distance(*grid.cell(1, 1).expect("Missing cell 1,1")),
        2
    );
}

#[test]
fn check_distances_cells() {
    let grid = Grid::square(4);
    let distances = SimpleSolver {}.solve(&grid, (0, 0));

    assert_eq!(distances.cells(1).len(), 2);
    assert_eq!(distances.cells(4).len(), 3);
}

#[test]
fn check_distances_all_cells() {
    let grid = Grid::square(4);
    let distances = SimpleSolver {}.solve(&grid, (0, 0));

    assert_eq!(distances.all_cells().len(), 16);
}

#[test]
fn mod_check_build_distances() {
    let grid = Grid::square(2);
    let mut map = Vec::new();
    map.push((*grid.cell(0, 0).unwrap(), 1u32));
    map.push((*grid.cell(1, 1).unwrap(), 2u32));

    let distances = Distances::build_distances(&map);

    assert_eq!(distances.get(&1).unwrap().len(), 1);
    assert_eq!(distances.get(&1).unwrap().get(0).unwrap().coords(), (0, 0));
    assert_eq!(distances.get(&2).unwrap().len(), 1);
    assert_eq!(distances.get(&2).unwrap().get(0).unwrap().coords(), (1, 1));
}

#[test]
#[should_panic]
fn check_invalid_distance_zero() {
    let grid = Grid::square(2);
    let mut map = Vec::new();
    map.push((*grid.cell(0, 0).unwrap(), 1));

    let distances = Distances::new(map);
    distances.start();
}

#[test]
fn dijkstra_check_build_distances() {
    let mut rng = StepRng::new(1, 1);
    let grid = Grid::grid(
        3,
        3,
        Grid::allow_all,
        &mut SideWinder::new_for_compass(Dice { rng: &mut rng }),
    );

    let solver = Dijkstra::new();
    let distances = solver.solve(&grid, (2, 0));

    assert_eq!(distances.start().coords(), (2, 0));
    assert_eq!(
        distances.distance(*grid.cell(2, 2).expect("Missing cell 2,2")),
        6
    );
    assert_eq!(distances.cells(0).len(), 1);
    assert_eq!(distances.cells(1).len(), 1);
    assert_eq!(distances.cells(2).len(), 1);
    assert_eq!(distances.cells(3).len(), 1);
    assert_eq!(distances.cells(4).len(), 2);
    assert_eq!(distances.cells(5).len(), 2);
    assert_eq!(distances.cells(6).len(), 1);
    assert_eq!(distances.cells(7).len(), 0);
}

#[test]
fn check_solve() {
    let mut rng = StepRng::new(1, 1);
    let grid = Grid::grid(
        3,
        3,
        Grid::allow_all,
        &mut SideWinder::new_for_compass(Dice { rng: &mut rng }),
    );
    let distances = Dijkstra::solve(&grid, (0, 0));
    assert_eq!(distances.start().coords(), (0, 0));
}

/// Hop distances by a plain breadth-first walk over the public queries.
fn reference(grid: &Grid, start: Cell) -> Vec<(Cell, u32)> {
    let mut found = vec![(start, 0u32)];
    let mut queue = VecDeque::new();
    queue.push_back((start, 0u32));
    while let Some((cell, depth)) = queue.pop_front() {
        for direction in [Compass::West, Compass::South, Compass::East, Compass::North] {
            if grid.links(&cell).contains(&direction) {
                let to = *grid.neighbour(&cell, direction).expect("link without neighbour");
                if !found.iter().any(|(c, _)| *c == to) {
                    found.push((to, depth + 1));
                    queue.push_back((to, depth + 1));
                }
            }
        }
    }
    found
}

#[test]
fn distances_agree_with_a_reference_walk() {
    for seed in 0..10u64 {
        let mut rng = StepRng::new(seed * 31 + 1, 7919);
        let mut grid = Grid::grid(
            6,
            5,
            |r, c| !(r == 3 && c == 2),
            &mut SideWinder::new_for_compass(Dice { rng: &mut rng }),
        );
        // open a few more passages, so that the passages hold cycles
        let cell_11 = *grid.cell(1, 1).unwrap();
        let cell_42 = *grid.cell(4, 2).unwrap();
        grid.link_cell(&cell_11, Compass::South);
        grid.link_cell(&cell_11, Compass::West);
        grid.link_cell(&cell_42, Compass::East);
        grid.link_cell(&cell_42, Compass::South);

        let start = *grid.cell(5, 0).unwrap();
        let distances = Dijkstra::solve(&grid, (5, 0));
        let expected = reference(&grid, start);

        assert_eq!(distances.start(), start);
        assert_eq!(distances.distance(start), 0);
        assert_eq!(distances.all_cells().len(), expected.len());
        for (cell, depth) in expected {
            assert_eq!(distances.distance(cell), depth);
            assert!(distances.cells(depth).contains(&cell));
        }
    }
}

#[test]
fn unreachable_cells_are_absent() {
    let mut grid = Grid::square(3);
    let cell_00 = *grid.cell(0, 0).unwrap();
    let cell_01 = *grid.cell(0, 1).unwrap();
    grid.link_cell(&cell_00, Compass::East);
    grid.link_cell(&cell_01, Compass::South);

    let distances = Dijkstra::solve(&grid, (0, 0));

    assert_eq!(
        distances.all_cells(),
        &vec![
            (Cell { row: 0, column: 0 }, 0),
            (Cell { row: 0, column: 1 }, 1),
            (Cell { row: 1, column: 1 }, 2),
        ]
    );
    assert_eq!(distances.cells(2), &[Cell { row: 1, column: 1 }]);
    assert_eq!(distances.cells(3).len(), 0);
}

#[test]
fn a_cycle_is_measured_the_short_way_round() {
    let mut grid = Grid::square(2);
    let cell_00 = *grid.cell(0, 0).unwrap();
    let cell_11 = *grid.cell(1, 1).unwrap();
    grid.link_cell(&cell_00, Compass::East);
    grid.link_cell(&cell_00, Compass::South);
    grid.link_cell(&cell_11, Compass::North);
    grid.link_cell(&cell_11, Compass::West);

    let distances = Dijkstra::solve(&grid, (0, 0));

    assert_eq!(distances.distance(Cell { row: 0, column: 1 }), 1);
    assert_eq!(distances.distance(Cell { row: 1, column: 0 }), 1);
    assert_eq!(distances.distance(cell_11), 2);
}

#[test]
fn applied_distances_show_as_digits() {
    let mut rng = StepRng::new(1, 1);
    let mut grid = Grid::grid(
        3,
        3,
        Grid::allow_all,
        &mut SideWinder::new_for_compass(Dice { rng: &mut rng }),
    );
    let distances = Dijkstra::solve(&grid, (2, 0));
    grid.apply_distances(distances);

    assert_eq!(grid.max_distance(), Some(6));
    assert_eq!(grid.distance(grid.cell(2, 2).unwrap()), Some(6));
    assert_eq!(
        grid.to_string(),
        "+---+---+---+\n\
         | 4   3   4 |\n\
         +   +   +   +\n\
         | 5 | 2 | 5 |\n\
         +---+   +   +\n\
         | 0   1 | 6 |\n\
         +---+---+---+\n"
    );
}

#[test]
fn applying_again_replaces_the_distances() {
    let mut grid = Grid::square(2);
    let cell_00 = *grid.cell(0, 0).unwrap();
    let cell_01 = *grid.cell(0, 1).unwrap();
    grid.apply_distances(Distances::new(vec![(cell_00, 40), (cell_01, 12)]));
    assert_eq!(grid.max_distance(), Some(40));
    assert_eq!(grid.distance(&cell_00), Some(40));

    grid.apply_distances(Distances::new(vec![(cell_01, 35)]));

    assert_eq!(grid.max_distance(), Some(35));
    assert_eq!(grid.distance(&cell_00), None);
    assert_eq!(grid.distance(&cell_01), Some(35));
    assert_eq!(
        grid.to_string(),
        "+---+---+\n|   | z |\n+---+---+\n|   |   |\n+---+---+\n"
    );

    grid.apply_distances(Distances::new(vec![(cell_01, 36)]));
    assert_eq!(
        grid.to_string(),
        "+---+---+\n|   |   |\n+---+---+\n|   |   |\n+---+---+\n"
    );

    grid.apply_distances(Distances::new(vec![]));
    assert_eq!(grid.max_distance(), Some(0));
    assert_eq!(grid.distance(&cell_01), None);
}

#[test]
fn distances_keep_the_order_of_their_entries() {
    let a = Cell { row: 0, column: 0 };
    let b = Cell { row: 0, column: 1 };
    let c = Cell { row: 1, column: 0 };
    let distances = Distances::new(vec![(b, 0), (a, 3), (c, 3)]);

    assert_eq!(distances.start(), b);
    assert_eq!(distances.cells(3), &[a, c]);
    assert_eq!(distances.cells(1).len(), 0);
    assert_eq!(distances.distance(c), 3);
    assert_eq!(distances.all_cells(), &vec![(b, 0), (a, 3), (c, 3)]);
}
