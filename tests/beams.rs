use aoc23::beams::{Beam, Pos, Space, UnknownSpace};
use aoc23::route::Direction;

#[test]
fn test_pos_step() {
    let width = 10;
    let height = 10;
    let cases = vec![
        (Pos::new(0, 0), Direction::Left, None),
        (Pos::new(0, 0), Direction::Right, Some(Pos::new(1, 0))),
        (Pos::new(0, 0), Direction::Down, Some(Pos::new(0, 1))),
        (Pos::new(0, 0), Direction::Up, None),
        (Pos::new(1, 1), Direction::Left, Some(Pos::new(0, 1))),
        (Pos::new(9, 4), Direction::Right, None),
    ];
    for (i, (p, d, expect)) in cases.into_iter().enumerate() {
        let res = p.step(&d, width, height);
        assert_eq!(
            res, expect,
            "Case {} failed. Expected ({:?})+({:?})=({:?}). Got ({:?})",
            i, p, d, expect, res,
        );
    }
}

#[test]
fn test_beam_step() {
    let width = 10;
    let height = 10;
    let cases = vec![
        (Beam::new(0, 0, Direction::Right), Space::Empty, vec![Beam::new(1, 0, Direction::Right)]),
        (Beam::new(0, 0, Direction::Left), Space::Empty, vec![]),
        (Beam::new(0, 0, Direction::Right), Space::MirrorForward, vec![]),
        (
            Beam::new(0, 0, Direction::Right),
            Space::MirrorBackward,
            vec![Beam::new(0, 1, Direction::Down)],
        ),
    ];
    for (i, (b, s, expect)) in cases.into_iter().enumerate() {
        let res = b.step(&s, width, height);
        assert_eq!(
            res, expect,
            "Case {} failed. Expected ({:?})+({:?})=({:?}). Got ({:?})",
            i, b, s, expect, res,
        );
    }
}

#[test]
fn splitters_and_tiles() {
    let b = Beam::new(5, 5, Direction::Down);
    assert_eq!(
        b.step(&Space::SplitLR, 10, 10),
        vec![Beam::new(4, 5, Direction::Left), Beam::new(6, 5, Direction::Right)]
    );
    let b = Beam::new(0, 0, Direction::Right);
    assert_eq!(b.step(&Space::SplitUD, 10, 10), vec![Beam::new(0, 1, Direction::Down)]);
    assert_eq!(Space::try_from('/'), Ok(Space::MirrorForward));
    assert_eq!(Space::try_from('\\'), Ok(Space::MirrorBackward));
    assert_eq!(Space::try_from('x'), Err(UnknownSpace { c: 'x' }));
}

#[test]
fn contraption_energizes_46_tiles() {
    let lines: Vec<String> = vec![
        r".|...\....",
        r"|.-.\.....",
        r".....|-...",
        r"........|.",
        r"..........",
        r".........\",
        r"..../.\\..",
        r".-.-/..|..",
        r".|....-|.\",
        r"..//.|....",
    ]
    .into_iter()
    .map(|s| s.to_string())
    .collect();
    let grid = aoc23::beams::parse_layout(&lines).unwrap();
    assert_eq!(aoc23::beams::energized_count(&grid), 46);
    assert_eq!(aoc23::beams::energized_count(&vec![vec![Space::Empty]]), 1);
    assert!(aoc23::beams::parse_layout(&vec!["x".to_string()]).is_err());
}
