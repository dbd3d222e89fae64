use aoc23::galaxy::Point;
use aoc23::lagoon::{BadHex, Color};

#[test]
fn colors_read_in_hex() {
    assert_eq!(Color::parse_hex("#70c710"), Ok(Color::new(0x70, 0xc7, 0x10)));
    assert_eq!(Color::parse_hex("#FFffFF"), Ok(Color::new(255, 255, 255)));
    assert_eq!(Color::parse_hex("#+f0000"), Ok(Color::new(15, 0, 0)));
    assert_eq!(Color::parse_hex("#zz0000"), Err(BadHex));
}

#[test]
fn galaxy_points() {
    let a = Point::new(1, 6);
    let b = Point::new(5, 11);
    assert_eq!(a.dist(&b), 9);
    assert_eq!(b.dist(&a), 9);
    assert!(a < b);
    assert!(Point::new(9, 0) < Point::new(0, 1));
    assert_eq!(Point::newu(3, 4), Point::new(3, 4));
}

#[test]
fn expanded_universe_distances() {
    let lines: Vec<String> = vec![
        "...#......",
        ".......#..",
        "#.........",
        "..........",
        "......#...",
        ".#........",
        ".........#",
        "..........",
        ".......#..",
        "#...#.....",
    ]
    .into_iter()
    .map(|s| s.to_string())
    .collect();
    assert_eq!(aoc23::galaxy::expanded_distance_total(&lines, 2), Some(374));
    assert_eq!(aoc23::galaxy::expanded_distance_total(&lines, 10), Some(1030));
    assert_eq!(aoc23::galaxy::expanded_distance_total(&lines, 100), Some(8410));
    assert_eq!(aoc23::galaxy::expanded_distance_total(&lines, u64::MAX), None);
    assert_eq!(aoc23::galaxy::expanded_distance_total(&vec![], 2), Some(0));
}
