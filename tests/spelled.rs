use aoc23::calibration::CalibrationError;
use aoc23::spelled::{find_first_digit, parse_file, parse_line, reverse_string};

#[test]
fn spelled_find_first_digit() {
    let s = "a1two2";
    let fd = find_first_digit(s, false).unwrap();
    assert_eq!(fd, 1, "Failed with string: \"{}\"", s);

    let s = "owt1a";
    let fd = find_first_digit(s, true).unwrap();
    assert_eq!(fd, 2, "Failed with string: \"{}\"", s);

    let s = "9abc2";
    let fd = find_first_digit(s, false).unwrap();
    assert_eq!(fd, 9, "Failed with string: \"{}\"", s);

    let s = "abonecd5";
    let fd = find_first_digit(s, false).unwrap();
    assert_eq!(fd, 1, "Failed with string: \"{}\"", s);

    let s = "ab5enocd";
    let fd = find_first_digit(s, true).unwrap();
    assert_eq!(fd, 5, "Failed with string: \"{}\"", s);

    let s = "abcdeight";
    let fd = find_first_digit(s, false).unwrap();
    assert_eq!(fd, 8, "Failed with string: \"{}\"", s);
}

#[test]
fn spelled_parse_line() {
    assert_eq!(parse_line("a1bcde2f".to_string()).unwrap(), 12);
    assert_eq!(parse_line("two1nine".to_string()).unwrap(), 29);
    assert_eq!(parse_line("xtwone3four".to_string()).unwrap(), 24);
    assert_eq!(parse_line("zoneight234".to_string()).unwrap(), 14);
    assert_eq!(parse_line("abc".to_string()), Err(CalibrationError::NoDigit));
}

#[test]
fn spelled_example() {
    let example_lines: Vec<String> = vec!["1abc2", "pqr3stu8vwx", "a1b2c3d4e5f", "treb7uchet"]
        .into_iter()
        .map(|s: &str| s.to_string())
        .collect();
    assert_eq!(parse_file(example_lines).unwrap(), 142);
    let lines: Vec<String> = vec![
        "two1nine",
        "eightwothree",
        "abcone2threexyz",
        "xtwone3four",
        "4nineeightseven2",
        "zoneight234",
        "7pqrstsixteen",
    ]
    .into_iter()
    .map(|s| s.to_string())
    .collect();
    assert_eq!(parse_file(lines).unwrap(), 281);
}

#[test]
fn reversing() {
    assert_eq!(reverse_string("abc"), "cba");
    assert_eq!(reverse_string(""), "");
}
