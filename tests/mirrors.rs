use aoc23::mirrors::{compare_sq_vec, Pattern, PatternError, Square};

fn lines(v: &[&str]) -> Vec<String> {
    v.iter().map(|s| s.to_string()).collect()
}

#[test]
fn pattern_reflections() {
    let a = Pattern::parse(&lines(&["#..#.", ".##..", "#..#."])).unwrap();
    assert_eq!(a.get_col_reflection(), Some(1));
    assert_eq!(a.get_row_reflection(), None);
    assert_eq!(a.summarize(), 2);
    let b = Pattern::parse(&lines(&[
        "#...##..#",
        "#....#..#",
        "..##..###",
        "#####.##.",
        "#####.##.",
        "..##..###",
        "#....#..#",
    ]))
    .unwrap();
    assert_eq!(b.get_row_reflection(), Some(3));
    assert_eq!(b.summarize(), 400);
    assert_eq!(b.row(0), Some(vec![Square::Rock, Square::Ash, Square::Ash, Square::Ash, Square::Rock, Square::Rock, Square::Ash, Square::Ash, Square::Rock]));
    assert_eq!(b.col(-1), None);
    assert_eq!(b.col(0).unwrap().len(), 7);
    assert!(b.cols_match(-3, 2));
    assert!(b.rows_match(3, 4));
    assert!(!b.rows_match(0, 1));
}

#[test]
fn pattern_errors() {
    assert_eq!(Pattern::parse(&vec![]), Err(PatternError::Empty));
    assert_eq!(Pattern::parse(&lines(&["#x"])), Err(PatternError::InvalidSquare));
    assert!(compare_sq_vec(&vec![Square::Ash], &vec![Square::Ash]));
    assert!(!compare_sq_vec(&vec![Square::Ash], &vec![]));
    assert_eq!(Square::try_from('#'), Ok(Square::Rock));
}
