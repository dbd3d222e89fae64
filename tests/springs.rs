use aoc23::springs::{Line, SpringError, SpringState};

#[test]
fn test_line_parse() {
    let cases = vec![
        (
            "???.### 1,1,3",
            Line::new(
                vec![
                    SpringState::Unknown,
                    SpringState::Unknown,
                    SpringState::Unknown,
                    SpringState::Operational,
                    SpringState::Damaged,
                    SpringState::Damaged,
                    SpringState::Damaged,
                ],
                vec![1, 1, 3],
            ),
        ),
        (
            "?#?#?#?#?#?#?#? 1,3,1,6",
            Line::new(
                vec![
                    SpringState::Unknown,
                    SpringState::Damaged,
                    SpringState::Unknown,
                    SpringState::Damaged,
                    SpringState::Unknown,
                    SpringState::Damaged,
                    SpringState::Unknown,
                    SpringState::Damaged,
                    SpringState::Unknown,
                    SpringState::Damaged,
                    SpringState::Unknown,
                    SpringState::Damaged,
                    SpringState::Unknown,
                    SpringState::Damaged,
                    SpringState::Unknown,
                ],
                vec![1, 3, 1, 6],
            ),
        ),
    ];
    for (input, expected) in cases {
        let actual = Line::parse(input).unwrap();
        assert_eq!(actual, expected);
    }
}

#[test]
fn test_line_parse_count() {
    let cases = vec![
        ("???.### 1,1,3", 1),
        (".??..??...?##. 1,1,3", 4),
        ("?#?#?#?#?#?#?#? 1,3,1,6", 1),
        ("????.#...#... 4,1,1", 1),
        ("????.######..#####. 1,6,5", 4),
        ("?###???????? 3,2,1", 10),
    ];
    for (i, (input, expected)) in cases.into_iter().enumerate() {
        let line = Line::parse(input).expect(format!("Failed to parse line {}", i).as_str());
        let count = line.arrangement_count();
        assert_eq!(count, expected, "Expected {}, got {}", expected, count);
    }
}

#[test]
fn damage_groups_and_errors() {
    let line = Line::parse("#.##..### 1,2,3").unwrap();
    assert_eq!(line.get_real_damage_counts(), Some(vec![1, 2, 3]));
    assert_eq!(line.matches(&line), Some(true));
    let other = Line::parse("# 1,2").unwrap();
    assert_eq!(line.matches(&other), Some(false));
    let unknown = Line::parse("#? 1").unwrap();
    assert_eq!(unknown.get_real_damage_counts(), None);
    let set = unknown.with_set_next_spring(SpringState::Damaged);
    assert_eq!(set.springs, vec![SpringState::Damaged, SpringState::Damaged]);
    assert_eq!(Line::parse("#x 1"), Err(SpringError::BadSpring));
    assert_eq!(Line::parse("#."), Err(SpringError::NoCounts));
    assert_eq!(Line::parse("#. 1,a"), Err(SpringError::BadCount));
    assert_eq!(SpringState::try_from('?'), Ok(SpringState::Unknown));
}
