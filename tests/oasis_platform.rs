use aoc23::oasis::{can_extrapolate, next_value, find_dists, find_next_value, parse_input_line, BadValue};
use aoc23::platform::{Grid, Space, UnknownSpace};
use aoc23::text::parse_i32;

#[test]
fn histories_extrapolate() {
    assert_eq!(parse_input_line(" 0 3 6 9 12 15 "), Ok(vec![0, 3, 6, 9, 12, 15]));
    assert_eq!(parse_input_line("1 -2"), Ok(vec![1, -2]));
    assert_eq!(parse_input_line("1 x"), Err(BadValue));
    assert_eq!(find_dists(&vec![0, 3, 6, 9]), vec![3, 3, 3]);
    assert_eq!(find_next_value(&vec![0, 3, 6, 9, 12, 15]), 18);
    assert_eq!(find_next_value(&vec![1, 3, 6, 10, 15, 21]), 28);
    assert_eq!(find_next_value(&vec![10, 13, 16, 21, 30, 45]), 68);
    // Read backwards, the same rule gives the previous value.
    assert_eq!(find_next_value(&vec![45, 30, 21, 16, 13, 10]), 5);
    assert_eq!(parse_i32("-2147483648"), Some(i32::MIN));
    assert_eq!(parse_i32("2147483648"), None);
    assert_eq!(parse_i32("-+1"), None);
}

#[test]
fn platform_tilts_north() {
    let lines: Vec<String> = vec![
        "O....#....",
        "O.OO#....#",
        ".....##...",
        "OO.#O....O",
        ".O.....O#.",
        "O.#..O.#.#",
        "..O..#O..O",
        ".......O..",
        "#....###..",
        "#OO..#....",
    ]
    .into_iter()
    .map(|s| s.to_string())
    .collect();
    let mut grid = Grid::parse(&lines).unwrap();
    assert_eq!(grid.get_load(), 104);
    let mut passes = 0;
    while grid.shift_north_once() {
        passes += 1;
    }
    assert!(passes > 0);
    assert_eq!(grid.get_load(), 136);
    assert!(!grid.shift_north_once());
    let mut again = Grid::parse(&lines).unwrap();
    again.shift_north_until_settled();
    assert_eq!(again, grid);
    assert_eq!(Grid::parse(&vec!["x".to_string()]), Err(UnknownSpace { c: 'x' }));
    assert_eq!(Space::try_from('O'), Ok(Space::RoundRock));
}

#[test]
fn extrapolation_guard() {
    assert!(can_extrapolate(&vec![0, 3, 6, 9]));
    assert_eq!(next_value(&vec![0, 3, 6, 9]), Some(12));
    assert_eq!(next_value(&vec![5, 5]), Some(5));
    assert_eq!(next_value(&vec![1, 2, 4]), None);
    assert_eq!(next_value(&vec![7]), None);
    assert_eq!(next_value(&vec![]), None);
    assert_eq!(next_value(&vec![i32::MIN, i32::MAX]), None);
    assert_eq!(next_value(&vec![i32::MAX - 1, i32::MAX]), None);
}
