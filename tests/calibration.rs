use aoc23::calibration::{find_first_digit, parse_file, parse_line, CalibrationError};

fn chars(s: &str) -> Vec<char> {
    s.chars().collect()
}

#[test]
fn test_find_first_digit() {
    assert_eq!(find_first_digit(&chars("a12")).unwrap(), 1);
    assert_eq!(find_first_digit(&chars("9abc2")).unwrap(), 9);
    assert_eq!(find_first_digit(&chars("abcd5")).unwrap(), 5);
    assert_eq!(find_first_digit(&"9abcd5".chars().rev().collect()).unwrap(), 5);
}

#[test]
fn test_parse_line() {
    assert_eq!(parse_line("a1bcde2f".to_string()).unwrap(), 12);
}

#[test]
fn test_example() {
    let example_lines: Vec<String> = vec!["1abc2", "pqr3stu8vwx", "a1b2c3d4e5f", "treb7uchet"]
        .into_iter()
        .map(|s: &str| s.to_string())
        .collect();
    assert_eq!(parse_file(example_lines).unwrap(), 142);
}

#[test]
fn calibration_errors() {
    assert_eq!(find_first_digit(&chars("abc")), Err(CalibrationError::NoDigit));
    assert_eq!(parse_line("7".to_string()), Ok(77));
    assert_eq!(parse_file(vec![]), Err(CalibrationError::NoLines));
    assert_eq!(parse_file(vec!["1".to_string(), "x".to_string()]), Err(CalibrationError::NoDigit));
}
