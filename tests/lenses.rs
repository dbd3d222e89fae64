use aoc23::lenses::{
    score_fits,
    get_ascii_code, hash_char, hash_string, init_state, score_state, update_state, Lens, LensError,
    Operation,
};

#[test]
fn test_get_ascii_code() {
    assert_eq!(get_ascii_code('a'), 97);
    assert_eq!(get_ascii_code('A'), 65);
    assert_eq!(get_ascii_code('1'), 49);
    assert_eq!(get_ascii_code('!'), 33);
}

#[test]
fn test_hash_char() {
    assert_eq!(hash_char(0, 'H'), 200);
    assert_eq!(hash_char(200, 'A'), 153);
    assert_eq!(hash_char(153, 'S'), 172);
    assert_eq!(hash_char(172, 'H'), 52);
}

#[test]
fn test_hash_string() {
    assert_eq!(hash_string("rn=1"), 30);
    assert_eq!(hash_string("cm-"), 253);
    assert_eq!(hash_string("qp=3"), 97);
}

#[test]
fn day15_part2_test_get_ascii_code() {
    assert_eq!(get_ascii_code('a'), 97);
    assert_eq!(get_ascii_code('A'), 65);
    assert_eq!(get_ascii_code('1'), 49);
    assert_eq!(get_ascii_code('!'), 33);
}

#[test]
fn day15_part2_test_hash_char() {
    assert_eq!(hash_char(0, 'H'), 200);
    assert_eq!(hash_char(200, 'A'), 153);
    assert_eq!(hash_char(153, 'S'), 172);
    assert_eq!(hash_char(172, 'H'), 52);
}

#[test]
fn day15_part2_test_hash_string() {
    assert_eq!(hash_string("rn=1"), 30);
    assert_eq!(hash_string("cm-"), 253);
    assert_eq!(hash_string("qp=3"), 97);
}

#[test]
fn test_update_state() {
    let mut state = init_state();
    let c = Operation::parse("rn=1").unwrap();
    update_state(&mut state, &c);
    assert_eq!(state[0], vec![Lens::new("rn", 1)]);
    assert_eq!(state.iter().filter(|b| !b.is_empty()).count(), 1);

    let c = Operation::parse("cm-").unwrap();
    update_state(&mut state, &c);
    assert_eq!(state[0], vec![Lens::new("rn", 1)]);
    assert_eq!(state.iter().filter(|b| !b.is_empty()).count(), 1);

    let c = Operation::parse("qp=3").unwrap();
    update_state(&mut state, &c);
    assert_eq!(state[0], vec![Lens::new("rn", 1)]);
    assert_eq!(state[1], vec![Lens::new("qp", 3)]);
    assert_eq!(state.iter().filter(|b| !b.is_empty()).count(), 2);

    let c = Operation::parse("cm=2").unwrap();
    update_state(&mut state, &c);
    assert_eq!(state[0], vec![Lens::new("rn", 1), Lens::new("cm", 2)]);
    assert_eq!(state[1], vec![Lens::new("qp", 3)]);
    assert_eq!(state.iter().filter(|b| !b.is_empty()).count(), 2);

    let c = Operation::parse("qp-").unwrap();
    update_state(&mut state, &c);
    assert_eq!(state[0], vec![Lens::new("rn", 1), Lens::new("cm", 2)]);
    assert_eq!(state[1], vec![]);
    assert_eq!(state.iter().filter(|b| !b.is_empty()).count(), 1);

    let c = Operation::parse("pc=4").unwrap();
    update_state(&mut state, &c);
    assert_eq!(state[0], vec![Lens::new("rn", 1), Lens::new("cm", 2)]);
    assert_eq!(state[3], vec![Lens::new("pc", 4)]);
    assert_eq!(state.iter().filter(|b| !b.is_empty()).count(), 2);
}

#[test]
fn test_score_state() {
    let state = vec![
        vec![Lens::new("rn", 1), Lens::new("cm", 2)],
        vec![],
        vec![],
        vec![Lens::new("ot", 7), Lens::new("ab", 5), Lens::new("pc", 6)],
    ];
    assert_eq!(score_state(&state), 145);
}

#[test]
fn lens_parse_trims_and_rejects() {
    assert_eq!(Lens::parse(" ab = 12 "), Ok(Lens::new("ab", 12)));
    assert_eq!(Lens::parse("ab=1=2"), Err(LensError::Malformed));
    assert_eq!(Lens::parse("ab"), Err(LensError::Malformed));
    assert_eq!(Lens::parse("ab=x"), Err(LensError::BadFocalLength));
    assert_eq!(Operation::parse("xy-"), Ok(Operation::Unset("xy".to_string())));
    assert_eq!(Operation::parse("xy=4"), Ok(Operation::SetLens(Lens::new("xy", 4))));
    assert_eq!(Operation::parse("qp-").unwrap().get_hash(), 1);
    assert_eq!(Lens::new("rn", 1).get_hash(), 0);
}

#[test]
fn score_overflow_guard() {
    let state = vec![vec![Lens::new("a", 9)], vec![Lens::new("b", u32::MAX)]];
    assert!(!score_fits(&state));
    let state = vec![vec![Lens::new("a", 9)], vec![Lens::new("b", 4)]];
    assert!(score_fits(&state));
    assert_eq!(score_state(&state), 17);
    assert!(score_fits(&init_state()));
}
