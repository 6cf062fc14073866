use mazes::maze::text::to_digit36;
use mazes::util::math::diff;
use mazes::util::series::SeriesRng;

#[test]
fn check_diff_u8() {
    assert_eq!(diff(u32::from(0u8), u32::from(0u8)), 0);
    assert_eq!(diff(u32::from(3u8), u32::from(3u8)), 0);
    assert_eq!(diff(u32::from(1u8), u32::from(3u8)), 2);
    assert_eq!(diff(u32::from(6u8), u32::from(3u8)), 3);
}

#[test]
fn check_diff_u16() {
    assert_eq!(diff(u32::from(1u16), u32::from(3u16)), 2);
    assert_eq!(diff(u32::from(6u16), u32::from(3u16)), 3);
}

#[test]
fn check_diff_u32() {
    assert_eq!(diff(1u32, 3u32), 2);
    assert_eq!(diff(6u32, 3u32), 3);
}

#[test]
fn check_diff_u64() {
    assert_eq!(diff(u32::try_from(1u64).unwrap(), u32::try_from(3u64).unwrap()), 2);
    assert_eq!(diff(u32::try_from(6u64).unwrap(), u32::try_from(3u64).unwrap()), 3);
}

#[test]
fn check_diff_usize() {
    assert_eq!(diff(u32::try_from(1usize).unwrap(), u32::try_from(3usize).unwrap()), 2);
    assert_eq!(diff(u32::try_from(6usize).unwrap(), u32::try_from(3usize).unwrap()), 3);
}

#[test]
fn diff_at_the_ends_of_the_range() {
    assert_eq!(diff(0, u32::MAX), u32::MAX);
    assert_eq!(diff(u32::MAX, 0), u32::MAX);
    assert_eq!(diff(u32::MAX, u32::MAX), 0);
}

#[test]
fn digits_in_base_36() {
    assert_eq!(to_digit36(0), Some('0'));
    assert_eq!(to_digit36(9), Some('9'));
    assert_eq!(to_digit36(10), Some('a'));
    assert_eq!(to_digit36(35), Some('z'));
    assert_eq!(to_digit36(36), None);
    assert_eq!(to_digit36(u32::MAX), None);
    for value in 0..40 {
        assert_eq!(to_digit36(value), char::from_digit(value, 36));
    }
}

#[test]
fn test_series_with_vec() {
    let mut some_rng = SeriesRng::new(vec![0, 1]);

    assert_eq!(some_rng.next_u32(), 0);
    assert_eq!(some_rng.next_u32(), 1);
    assert_eq!(some_rng.next_u32(), 0);
    assert_eq!(some_rng.next_u32(), 1);
}

#[test]
fn test_series_with_range() {
    let mut some_rng = SeriesRng::new((0..2).collect());

    assert_eq!(some_rng.next_u32(), 0);
    assert_eq!(some_rng.next_u32(), 1);
    assert_eq!(some_rng.next_u32(), 0);
    assert_eq!(some_rng.next_u32(), 1);
}

#[test]
fn test_series_with_inclusive_range() {
    let mut some_rng = SeriesRng::new((0..=2).collect());

    assert_eq!(some_rng.next_u32(), 0);
    assert_eq!(some_rng.next_u32(), 1);
    assert_eq!(some_rng.next_u32(), 2);
    assert_eq!(some_rng.next_u32(), 0);
}

#[test]
fn test_series_with_array() {
    let mut some_rng = SeriesRng::new(Vec::from([0, 1, 2]));

    assert_eq!(some_rng.next_u32(), 0);
    assert_eq!(some_rng.next_u32(), 1);
    assert_eq!(some_rng.next_u32(), 2);
    assert_eq!(some_rng.next_u32(), 0);
}

#[test]
fn a_series_hands_out_whole_numbers_and_their_low_halves() {
    let mut some_rng = SeriesRng::new(vec![0x1_0000_0005, 7]);

    assert_eq!(some_rng.next_u64(), 0x1_0000_0005);
    assert_eq!(some_rng.next_u64(), 7);
    assert_eq!(some_rng.next_u32(), 5);
    assert_eq!(some_rng.next_u64(), 7);
}
