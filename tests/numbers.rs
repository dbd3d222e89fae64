use aoc23::cubes::{CubeSet, GameRes};
use aoc23::network::{gcd, lcm, parse_line, steps_from, NetworkError};

#[test]
fn gcd_and_lcm() {
    assert_eq!(gcd(12, 18), 6);
    assert_eq!(gcd(7, 0), 7);
    assert_eq!(gcd(0, 5), 5);
    assert_eq!(lcm(vec![4, 6, 10]), 60);
    assert_eq!(lcm(vec![9]), 9);
}

#[test]
fn cube_sets() {
    let a = CubeSet { red: 4, green: 0, blue: 3 };
    let b = CubeSet { red: 1, green: 2, blue: 6 };
    assert_eq!(a.add(&b), CubeSet { red: 5, green: 2, blue: 9 });
    let m = a.max(b);
    assert_eq!(m, CubeSet { red: 4, green: 2, blue: 6 });
    assert_eq!(m.power(), 48);
    let total = CubeSet { red: 12, green: 13, blue: 14 };
    let g = GameRes { id: 1, sets: vec![a, b] };
    assert!(g.possible_with(&total));
    let g = GameRes { id: 3, sets: vec![a, CubeSet { red: 20, green: 8, blue: 6 }] };
    assert!(!g.possible_with(&total));
}

#[test]
fn cube_games() {
    let lines = [
        "Game 1: 3 blue, 4 red; 1 red, 2 green, 6 blue; 2 green",
        "Game 2: 1 blue, 2 green; 3 green, 4 blue, 1 red; 1 green, 1 blue",
        "Game 3: 8 green, 6 blue, 20 red; 5 blue, 4 red, 13 green; 5 green, 1 red",
        "Game 4: 1 green, 3 red, 6 blue; 3 green, 6 red; 3 green, 15 blue, 14 red",
        "Game 5: 6 red, 1 blue, 3 green; 2 blue, 1 red, 2 green",
    ];
    let games: Vec<GameRes> = lines.iter().map(|l| GameRes::parse(l).unwrap()).collect();
    assert_eq!(games[0].id, 1);
    assert_eq!(games[0].sets[0], CubeSet { red: 4, green: 0, blue: 3 });
    let total = CubeSet { red: 12, green: 13, blue: 14 };
    assert_eq!(aoc23::cubes::possible_id_sum(&games, &total), Some(8));
    let powers: usize = games.iter().map(|g| g.fewest_cubes().unwrap().power()).sum();
    assert_eq!(powers, 2286);
    assert_eq!(CubeSet::parse("2 red, 3 red"), Ok(CubeSet { red: 5, green: 0, blue: 0 }));
    assert_eq!(CubeSet::parse("x"), Err(aoc23::cubes::CubeError::NoMatch));
    assert_eq!(GameRes::parse("Gme 1: 1 red"), Err(aoc23::cubes::CubeError::BadGame));
    assert_eq!(
        CubeSet::parse("99999999999999999999999 red"),
        Err(aoc23::cubes::CubeError::BadNumber)
    );
}

#[test]
fn network_walks() {
    let lines = [
        "11A = (11B, XXX)",
        "11B = (XXX, 11Z)",
        "11Z = (11B, XXX)",
        "22A = (22B, XXX)",
        "22B = (22C, 22C)",
        "22C = (22Z, 22Z)",
        "22Z = (22B, 22B)",
        "XXX = (XXX, XXX)",
    ];
    let nodes: Vec<(String, String, String)> = lines.iter().map(|l| parse_line(l).unwrap()).collect();
    assert_eq!(nodes[0], ("11A".to_string(), "11B".to_string(), "XXX".to_string()));
    let mut with_dup = nodes.clone();
    with_dup.push(("11A".to_string(), "XXX".to_string(), "XXX".to_string()));
    assert_eq!(aoc23::network::start_nodes(&with_dup), vec!["11A".to_string(), "22A".to_string()]);
    let dirs: Vec<char> = "LR".chars().collect();
    let a = steps_from(&dirs, &nodes, &"11A".to_string(), 100).unwrap();
    let b = steps_from(&dirs, &nodes, &"22A".to_string(), 100).unwrap();
    assert_eq!((a, b), (2, 3));
    assert_eq!(lcm(vec![a, b]), 6);
    assert_eq!(steps_from(&dirs, &nodes, &"XXX".to_string(), 50), Err(NetworkError::NoArrival));
    assert_eq!(steps_from(&dirs, &nodes, &"QQQ".to_string(), 50), Err(NetworkError::UnknownNode));
    assert_eq!(steps_from(&vec!['X'], &nodes, &"11A".to_string(), 50), Err(NetworkError::BadDirection));
    assert_eq!(steps_from(&vec![], &nodes, &"11A".to_string(), 50), Err(NetworkError::NoDirections));
    assert_eq!(parse_line("no node here"), Err(NetworkError::BadLine));
}

#[test]
fn network_aaa_to_zzz() {
    let lines = ["AAA = (BBB, CCC)", "BBB = (DDD, EEE)", "CCC = (ZZZ, GGG)", "ZZZ = (ZZZ, ZZZ)"];
    let nodes: Vec<(String, String, String)> =
        lines.iter().map(|l| aoc23::network::parse_caps_line(l).unwrap()).collect();
    let dirs: Vec<char> = "RL".chars().collect();
    assert_eq!(aoc23::network::steps_aaa_to_zzz(&dirs, &nodes, 100), Ok(2));
    // Step c follows direction c % 2, so "LLR" never turns right.
    let lines = ["AAA = (BBB, BBB)", "BBB = (AAA, ZZZ)", "ZZZ = (ZZZ, ZZZ)"];
    let nodes: Vec<(String, String, String)> =
        lines.iter().map(|l| aoc23::network::parse_caps_line(l).unwrap()).collect();
    let dirs: Vec<char> = "LLR".chars().collect();
    assert_eq!(aoc23::network::steps_aaa_to_zzz(&dirs, &nodes, 100), Err(NetworkError::NoArrival));
    assert_eq!(aoc23::network::parse_caps_line("11A = (11B, XXX)"), Err(NetworkError::BadLine));
}
