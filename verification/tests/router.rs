use mazes::maze::grid::{Compass, Grid};
use mazes::router::binarytree::{pick, BinaryTree};
use mazes::router::dice::Dice;
use mazes::router::sidewinder::{closing, pick_member, SideWinder};
use mazes::router::NoOp;
use mazes::solver::{SimpleSolver, Solver};
use rand::rngs::mock::StepRng;

#[test]
fn check_distances_start() {
    let mut carver = NoOp {};
    let grid = Grid::grid(2, 2, Grid::allow_all, &mut carver);
    let cell = grid.cell(0, 0).expect("Missing cell at 0,0");
    let links = grid.links(cell);

    assert_eq!(links.contains(&Compass::North), false);
    assert_eq!(links.contains(&Compass::East), false);
    assert_eq!(links.contains(&Compass::South), false);
    assert_eq!(links.contains(&Compass::West), false);
}

#[test]
fn mod_check_distances_start() {
    let grid = Grid::square(4);
    let distances = SimpleSolver {}.solve(&grid, (0, 0));

    assert_eq!(distances.start().coords(), (0, 0));
}

#[test]
fn check_mock_binarytree() {
    let newline: String = String::from("\n");
    let mut rng = StepRng::new(0, 1);
    let grid = Grid::grid(
        3,
        3,
        Grid::allow_all,
        &mut BinaryTree::new_for_compass(Dice { rng: &mut rng }),
    );

    assert_eq!(
        newline + &grid.to_string(),
        r#"
+---+---+---+
|           |
+   +---+   +
|   |       |
+   +---+   +
|   |       |
+---+---+---+
"#
    );
}

#[test]
fn check_mock_sidewinder() {
    let newline: String = String::from("\n");
    let mut rng = StepRng::new(1, 1);
    let grid = Grid::grid(
        3,
        3,
        Grid::allow_all,
        &mut SideWinder::new_for_compass(Dice { rng: &mut rng }),
    );

    assert_eq!(
        newline + &grid.to_string(),
        r#"
+---+---+---+
|           |
+   +   +   +
|   |   |   |
+---+   +   +
|       |   |
+---+---+---+
"#
    );
}

#[test]
fn a_fixed_generator_carves_the_same_maze_again() {
    for (start, step) in [(0u64, 1u64), (7, 3), (12345, 977)] {
        let mut first = StepRng::new(start, step);
        let mut second = StepRng::new(start, step);
        let one = Grid::grid(
            6,
            7,
            |r, c| !(r == 2 && c == 3),
            &mut BinaryTree::new_for_compass(Dice { rng: &mut first }),
        );
        let two = Grid::grid(
            6,
            7,
            |r, c| !(r == 2 && c == 3),
            &mut BinaryTree::new_for_compass(Dice { rng: &mut second }),
        );
        assert_eq!(one.to_string(), two.to_string());

        let mut first = StepRng::new(start, step);
        let mut second = StepRng::new(start, step);
        let one = Grid::grid(
            6,
            7,
            |r, c| !(r == 2 && c == 3),
            &mut SideWinder::new_for_compass(Dice { rng: &mut first }),
        );
        let two = Grid::grid(
            6,
            7,
            |r, c| !(r == 2 && c == 3),
            &mut SideWinder::new_for_compass(Dice { rng: &mut second }),
        );
        assert_eq!(one.to_string(), two.to_string());
    }
}

#[test]
fn binarytree_always_picking_the_first_candidate() {
    let mut rng = StepRng::new(0, 0);
    let grid = Grid::grid(
        3,
        3,
        Grid::allow_all,
        &mut BinaryTree::new_for_compass(Dice { rng: &mut rng }),
    );

    assert_eq!(
        grid.to_string(),
        "+---+---+---+\n\
         |           |\n\
         +   +   +   +\n\
         |   |   |   |\n\
         +   +   +   +\n\
         |   |   |   |\n\
         +---+---+---+\n"
    );
}

#[test]
fn binarytree_with_other_preferences() {
    let mut rng = StepRng::new(1, 0);
    let grid = Grid::grid(
        2,
        2,
        Grid::allow_all,
        &mut BinaryTree::new(Dice { rng: &mut rng }, vec![Compass::South, Compass::West]),
    );

    // the one cell with two candidates takes the second one, west
    assert_eq!(
        grid.to_string(),
        "+---+---+\n\
         |       |\n\
         +   +---+\n\
         |       |\n\
         +---+---+\n"
    );
}

#[test]
fn binarytree_without_preferences_carves_nothing() {
    let mut rng = StepRng::new(0, 1);
    let grid = Grid::grid(
        2,
        2,
        Grid::allow_all,
        &mut BinaryTree::new(Dice { rng: &mut rng }, vec![]),
    );

    assert_eq!(grid.to_string(), Grid::square(2).to_string());
}

#[test]
fn pick_takes_the_candidate_at_the_draw() {
    let none: Vec<Compass> = vec![];
    assert_eq!(pick(&none, 5), None);
    assert_eq!(pick(&vec![Compass::East], 5), Some(Compass::East));
    let two = vec![Compass::North, Compass::East];
    assert_eq!(pick(&two, 0), Some(Compass::North));
    assert_eq!(pick(&two, 1), Some(Compass::East));
    assert_eq!(pick(&two, 6), Some(Compass::North));
    assert_eq!(pick(&two, usize::MAX), Some(Compass::East));
}

#[test]
fn closing_ends_a_run_at_the_side_or_on_an_even_coin() {
    assert!(closing(false, false, 1));
    assert!(closing(false, true, 1));
    assert!(!closing(true, false, 0));
    assert!(closing(true, true, 0));
    assert!(!closing(true, true, 1));
    assert!(closing(true, true, 65534));
    assert!(!closing(true, true, 65535));
}

#[test]
fn pick_member_takes_the_cell_at_the_draw() {
    let grid = Grid::square(2);
    let run: Vec<_> = grid.cells().into_iter().copied().collect();

    assert_eq!(pick_member(&run, 0).coords(), (0, 0));
    assert_eq!(pick_member(&run, 3).coords(), (1, 1));
    assert_eq!(pick_member(&run, 6).coords(), (1, 0));
}

#[test]
fn every_carved_maze_is_a_spanning_tree() {
    for seed in 0..20u64 {
        let mut rng = StepRng::new(seed * 7919, 104729);
        let grid = Grid::grid(
            5,
            6,
            Grid::allow_all,
            &mut SideWinder::new_for_compass(Dice { rng: &mut rng }),
        );
        let mut links = 0;
        for cell in grid.cells() {
            for direction in [Compass::East, Compass::South] {
                if grid.links(cell).contains(&direction) {
                    links += 1;
                }
            }
        }
        assert_eq!(links, 5 * 6 - 1);
        assert_eq!(
            mazes::solver::dijkstra::Dijkstra::solve(&grid, (0, 0))
                .all_cells()
                .len(),
            30
        );
    }
}
