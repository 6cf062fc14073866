use mazes::maze::grid::Compass;
use mazes::maze::Direction;

#[test]
fn check_direction_points() {
    let direction = Compass::all();
    let mut points = direction.iter();

    assert_eq!(points.next(), Some(&Compass::North));
    assert_eq!(points.next(), Some(&Compass::East));
    assert_eq!(points.next(), Some(&Compass::South));
    assert_eq!(points.next(), Some(&Compass::West));
    assert_eq!(points.next(), None);
}

#[test]
fn check_direction_neighbour() {
    assert_eq!(Compass::North.neighbour(1, 1), (0, 1));
    assert_eq!(Compass::East.neighbour(1, 1), (1, 2));
    assert_eq!(Compass::South.neighbour(1, 1), (2, 1));
    assert_eq!(Compass::West.neighbour(1, 1), (1, 0));
}

#[test]
fn check_direction_checked_neighbour() {
    assert_eq!(Compass::North.checked_neighbour(3, 3, 1, 1), Some((0, 1)));
    assert_eq!(Compass::East.checked_neighbour(3, 3, 1, 1), Some((1, 2)));
    assert_eq!(Compass::South.checked_neighbour(3, 3, 1, 1), Some((2, 1)));
    assert_eq!(Compass::West.checked_neighbour(3, 3, 1, 1), Some((1, 0)));
}

#[test]
fn check_direction_checked_neighbour_fail() {
    assert_eq!(Compass::North.checked_neighbour(3, 3, 0, 1), None);
    assert_eq!(Compass::East.checked_neighbour(3, 3, 1, 2), None);
    assert_eq!(Compass::South.checked_neighbour(3, 3, 2, 1), None);
    assert_eq!(Compass::West.checked_neighbour(3, 3, 1, 0), None);
}

#[test]
fn check_direction_offset() {
    assert_eq!(Compass::offset(3, 3, 0, 2), Some(2));
    assert_eq!(Compass::offset(3, 3, 1, 1), Some(4));
    assert_eq!(Compass::offset(3, 3, 2, 0), Some(6));
    assert_eq!(Compass::offset(3, 3, 3, 1), None);
    assert_eq!(Compass::offset(3, 3, 1, 3), None);
}

#[test]
fn reverse_is_an_involution() {
    for direction in Compass::all() {
        assert_ne!(direction.reverse(), direction);
        assert_eq!(direction.reverse().reverse(), direction);
    }
    assert_eq!(Compass::North.reverse(), Compass::South);
    assert_eq!(Compass::East.reverse(), Compass::West);
}

#[test]
fn a_step_and_its_reverse_return() {
    for direction in Compass::all() {
        let (row, column) = direction.neighbour(5, 7);
        assert_eq!(direction.reverse().neighbour(row, column), (5, 7));
    }
}

#[test]
fn checked_neighbour_of_an_empty_rectangle() {
    for direction in Compass::all() {
        assert_eq!(direction.checked_neighbour(0, 0, 0, 0), None);
        assert_eq!(direction.checked_neighbour(3, 0, 1, 0), None);
        assert_eq!(direction.checked_neighbour(0, 3, 0, 1), None);
    }
    assert_eq!(Compass::offset(0, 0, 0, 0), None);
}

#[test]
fn checked_neighbour_from_outside_the_rectangle() {
    assert_eq!(Compass::North.checked_neighbour(3, 3, 100, 1), None);
    assert_eq!(Compass::West.checked_neighbour(3, 3, 1, 100), None);
    assert_eq!(Compass::North.checked_neighbour(3, 3, 3, 1), Some((2, 1)));
    assert_eq!(Compass::West.checked_neighbour(3, 3, 1, 3), Some((1, 2)));
    assert_eq!(Compass::South.checked_neighbour(3, 3, 1, 3), None);
}

#[test]
fn checked_neighbour_at_the_end_of_the_range() {
    let top = u32::MAX;
    assert_eq!(Compass::East.checked_neighbour(top, top, 0, top - 1), None);
    assert_eq!(Compass::South.checked_neighbour(top, top, top - 1, 0), None);
    assert_eq!(
        Compass::East.checked_neighbour(top, top, 0, top - 2),
        Some((0, top - 1))
    );
}
