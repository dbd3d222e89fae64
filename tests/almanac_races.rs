use aoc23::almanac::{AlmanacError, MapRule, Mapping, SeedRange};
use aoc23::races::{get_dist, get_first_winner, get_last_winner, get_win_margin, NoWinner, RaceInfo};

#[test]
fn map_rules_move_their_range() {
    let rule = MapRule::parse(" 50 98 2 ").unwrap();
    assert_eq!(rule, MapRule { dest_start: 50, src_start: 98, width: 2 });
    assert!(rule.is_in(98));
    assert!(!rule.is_in(100));
    assert_eq!(rule.map(99), 51);
    assert_eq!(rule.map(10), 10);
    assert!(rule.was_in(51));
    assert_eq!(rule.unmap(51), 99);
    let m = Mapping {
        src: "seed".to_string(),
        dest: "soil".to_string(),
        rules: vec![rule, MapRule::parse("52 50 48").unwrap()],
    };
    assert_eq!(m.map(79), 81);
    assert_eq!(m.map(14), 14);
    assert_eq!(m.map(98), 50);
    assert_eq!(m.unmap(81), 79);
    assert_eq!(MapRule::parse("1 2"), Err(AlmanacError::TooFewNumbers));
    assert_eq!(MapRule::parse("1 x 3"), Err(AlmanacError::BadNumber));
    let r = SeedRange { start: 79, width: 14 };
    assert!(r.contains(92));
    assert!(!r.contains(93));
}

#[test]
fn race_margins() {
    assert_eq!(get_dist(3, 7), 12);
    assert_eq!(get_dist(8, 7), 0);
    let ri = RaceInfo { time: 7, record: 9 };
    assert_eq!(get_first_winner(&ri), Ok(2));
    assert_eq!(get_last_winner(&ri), Ok(5));
    assert_eq!(get_win_margin(&ri), Ok(4));
    assert_eq!(get_win_margin(&RaceInfo { time: 30, record: 200 }), Ok(9));
    assert_eq!(get_win_margin(&RaceInfo { time: 3, record: 10 }), Err(NoWinner));
}

#[test]
fn race_sheets() {
    let lines: Vec<String> = vec!["Time:      7  15   30", "Distance:  9  40  200"]
        .into_iter()
        .map(|s| s.to_string())
        .collect();
    let races = aoc23::races::parse_input(&lines).unwrap();
    assert_eq!(
        races,
        vec![
            RaceInfo { time: 7, record: 9 },
            RaceInfo { time: 15, record: 40 },
            RaceInfo { time: 30, record: 200 }
        ]
    );
    let margins: Vec<usize> = races.iter().map(|r| get_win_margin(r).unwrap()).collect();
    assert_eq!(margins, vec![4, 8, 9]);
    assert_eq!(aoc23::races::margin_product(&margins), Some(288));
    assert_eq!(aoc23::races::margin_product(&vec![usize::MAX, 2]), None);
    assert_eq!(aoc23::races::margin_product(&vec![]), Some(1));
    let long = aoc23::long_race::parse_input(&lines).unwrap();
    assert_eq!(long, RaceInfo { time: 71530, record: 940200 });
    assert_eq!(get_win_margin(&long), Ok(71503));
    assert_eq!(
        aoc23::races::parse_input(&vec!["Time 7".to_string()]),
        Err(aoc23::races::RaceError::MissingField)
    );
    assert_eq!(
        aoc23::races::parse_input(&vec!["Time: 7".to_string()]),
        Err(aoc23::races::RaceError::MissingLine)
    );
    assert_eq!(
        aoc23::long_race::parse_input(&vec!["Time: 7 x".to_string(), "D: 1".to_string()]),
        Err(aoc23::races::RaceError::BadNumber)
    );
}

#[test]
fn almanac_example_lowest_location() {
    let text = "seeds: 79 14 55 13\n\nseed-to-soil map:\n50 98 2\n52 50 48\n\nsoil-to-fertilizer map:\n0 15 37\n37 52 2\n39 0 15\n\nfertilizer-to-water map:\n49 53 8\n0 11 42\n42 0 7\n57 7 4\n\nwater-to-light map:\n88 18 7\n18 25 70\n\nlight-to-temperature map:\n45 77 23\n81 45 19\n68 64 13\n\ntemperature-to-humidity map:\n0 69 1\n1 0 69\n\nhumidity-to-location map:\n60 56 37\n56 93 4\n";
    let lines = aoc23::input::load_input_lines(text);
    let groups: Vec<Vec<String>> = lines.split(|l| l.is_empty()).map(|g| g.to_vec()).collect();
    let seeds = aoc23::almanac::parse_seeds(&groups[0][0]).unwrap();
    assert_eq!(seeds, vec![79, 14, 55, 13]);
    let mappings: Vec<Mapping> = groups[1..].iter().map(|g| Mapping::parse(g).unwrap()).collect();
    assert_eq!(mappings.len(), 7);
    assert_eq!(mappings[0].src, "seed");
    assert_eq!(mappings[0].dest, "soil");
    assert_eq!(mappings[0].rules.len(), 2);
    assert_eq!(aoc23::almanac::locate(&mappings, 79), 82);
    assert_eq!(aoc23::almanac::lowest_location(&mappings, &seeds), Some(35));
    assert_eq!(aoc23::almanac::lowest_location(&mappings, &vec![]), None);
    let ranges = aoc23::almanac::parse_seed_ranges(&groups[0][0]).unwrap();
    assert_eq!(ranges, vec![SeedRange { start: 55, width: 13 }, SeedRange { start: 79, width: 14 }]);
    assert_eq!(
        aoc23::almanac::parse_seed_ranges("seeds: 9 1 3 2 9 5 1 1").unwrap(),
        vec![
            SeedRange { start: 1, width: 1 },
            SeedRange { start: 3, width: 2 },
            SeedRange { start: 9, width: 1 },
            SeedRange { start: 9, width: 5 }
        ]
    );
    assert_eq!(aoc23::almanac::trace_back(&mappings, 46), 82);
    assert_eq!(aoc23::almanac::lowest_seeded_location(&mappings, &ranges), Some(46));
    assert_eq!(aoc23::almanac::parse_seed_ranges("seeds: 1 2 3"), Err(AlmanacError::OddSeedCount));
    assert_eq!(aoc23::almanac::parse_seeds("seeds:"), Err(AlmanacError::NoSeeds));
    assert_eq!(
        aoc23::almanac::parse_map_type("a-to-b-to-c map"),
        Ok(("a-to-b".to_string(), "c".to_string()))
    );
    assert_eq!(aoc23::almanac::parse_map_type("nothing"), Err(AlmanacError::NoMapType));
}
