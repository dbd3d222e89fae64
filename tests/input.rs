use aoc23::input::{load_input_by_name, load_input_lines, parse_filename, InputError};

#[test]
fn test_load_input_lines() {
    let data: Vec<String> = load_input_lines("1abc2\r\npqr3stu8vwx\n\nlast");
    assert!(data.len() > 0);
    assert_eq!(data, vec!["1abc2", "pqr3stu8vwx", "", "last"]);
    assert_eq!(load_input_lines("a\n"), vec!["a"]);
    assert!(load_input_lines("").is_empty());
}

#[test]
fn test_parse_filename() {
    assert_eq!(parse_filename("day01-part1.rs").unwrap(), 1);
    assert_eq!(parse_filename("day02-part2.rs").unwrap(), 2);
    assert_eq!(parse_filename("day25-part1.rs").unwrap(), 25);
    assert_eq!(parse_filename("foo/bar/baz/day01-part2.rs").unwrap(), 1);
    assert_eq!(parse_filename("/bar/baz/day01-part1.rs").unwrap(), 1);
    assert_eq!(parse_filename("./bar/baz/day01-part1.rs").unwrap(), 1);
}

#[test]
fn input_paths() {
    assert_eq!(load_input_by_name("src/bin/day07-part2.rs").unwrap(), "data/07.txt");
    assert_eq!(load_input_by_name("main.rs"), Err(InputError::InvalidFilename));
    assert_eq!(parse_filename("day1-part1.rs"), Err(InputError::InvalidFilename));
}
