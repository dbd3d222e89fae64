use aoc23::schematic::{gear_ratio_sum, part_number_sum, scan_schematic, Number, NumberTooLarge, Point, Symbol};

#[test]
fn test_() {}

#[test]
fn numbers_next_to_symbols() {
    let n = Number::new(0, 0, 2, 467);
    assert_eq!(n.bound_tl(), Point::new(0, 0));
    assert_eq!(n.bound_br(), Point::new(3, 1));
    assert!(n.is_adjacent(&Point::new(3, 1)));
    assert!(!n.is_adjacent(&Point::new(4, 1)));
    let m = Number::new(2, 5, 7, 114);
    assert_eq!(m.bound_tl(), Point::new(4, 1));
    let syms = vec![Symbol { pos: Point::new(3, 1), sym: '*' }];
    assert_eq!(part_number_sum(&vec![n, m], &syms), 467);
    assert_eq!(part_number_sum(&vec![], &syms), 0);
}

#[test]
fn engine_schematic_sums() {
    let lines: Vec<String> = vec![
        "467..114..",
        "...*......",
        "..35..633.",
        "......#...",
        "617*......",
        ".....+.58.",
        "..592.....",
        "......755.",
        "...$.*....",
        ".664.598..",
    ]
    .into_iter()
    .map(|s| s.to_string())
    .collect();
    let (nums, syms) = scan_schematic(&lines).unwrap();
    assert_eq!(nums.len(), 10);
    assert_eq!(nums[0], Number::new(0, 0, 2, 467));
    assert_eq!(syms.len(), 6);
    assert_eq!(syms[0], Symbol { pos: Point::new(3, 1), sym: '*' });
    assert_eq!(part_number_sum(&nums, &syms), 4361);
    assert_eq!(gear_ratio_sum(&nums, &syms), 467835);
    let big = vec!["99999999999999999999999".to_string()];
    assert_eq!(scan_schematic(&big), Err(NumberTooLarge));
}
