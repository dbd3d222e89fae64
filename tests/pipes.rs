use aoc23::pipes::{count_enclosed, with_start_pipe, farthest, find_start, follow_loop, get_connections, get_point, infer, is_followable, touches, Pipe, PipeError, Point};

fn grid(lines: &[&str]) -> Vec<Vec<Pipe>> {
    lines.iter().map(|l| l.chars().map(|c| Pipe::try_from(c).unwrap()).collect()).collect()
}

#[test]
fn pipe_loop_connections() {
    let g = grid(&[".....", ".S-7.", ".|.|.", ".L-J.", "....."]);
    let s = find_start(&g).unwrap();
    assert_eq!(s, Point::new(1, 1));
    assert_eq!(get_point(&g, &Point::new(3, 1)), Some(Pipe::SouthWest));
    assert_eq!(get_point(&g, &Point::new(-1, 1)), None);
    assert_eq!(get_connections(&g, &s), Some((Point::new(1, 2), Point::new(2, 1))));
    assert_eq!(get_connections(&g, &Point::new(2, 1)), Some((Point::new(3, 1), Point::new(1, 1))));
    assert_eq!(get_connections(&g, &Point::new(0, 0)), None);
    assert!(touches(&g, &Point::new(2, 1), &s));
    assert!(!touches(&g, &Point::new(0, 0), &s));
    assert_eq!(infer(&g, &s), Ok(Pipe::SouthEast));
    assert_eq!(infer(&g, &Point::new(0, 0)), Err(PipeError::NoConnections));
    assert_eq!(find_start(&grid(&["..", ".."])), Err(PipeError::NoStart));
    assert_eq!(Pipe::try_from('x'), Err(PipeError::InvalidPipe));
    assert_eq!(Point::new(2, 2).north(), Point::new(2, 1));
    assert_eq!(Point::new(2, 2).west(), Point::new(1, 2));
}

#[test]
fn loop_farthest_point() {
    let g = grid(&["..F7.", ".FJ|.", "SJ.L7", "|F--J", "LJ..."]);
    let s = find_start(&g).unwrap();
    assert!(is_followable(&g, &s));
    let (a, b) = get_connections(&g, &s).unwrap();
    let p1 = follow_loop(&g, &s, &a, 100).unwrap();
    let p2 = follow_loop(&g, &s, &b, 100).unwrap();
    assert_eq!(p1.len(), 17);
    assert_eq!(p1[0], s);
    assert_eq!(*p1.last().unwrap(), s);
    assert_eq!(farthest(&p1, &p2, s), Ok(8));
    assert_eq!(follow_loop(&g, &s, &a, 3), Err(PipeError::NoLoop));
    let small = grid(&[".....", ".S-7.", ".|.|.", ".L-J.", "....."]);
    let s = find_start(&small).unwrap();
    let (a, b) = get_connections(&small, &s).unwrap();
    let p1 = follow_loop(&small, &s, &a, 100).unwrap();
    let p2 = follow_loop(&small, &s, &b, 100).unwrap();
    assert_eq!(farthest(&p1, &p2, s), Ok(4));
    assert_eq!(farthest(&vec![s, s], &vec![s, s], s), Err(PipeError::NoPoints));
}

#[test]
fn tiles_enclosed_by_the_loop() {
    let g = grid(&[
        "...........",
        ".S-------7.",
        ".|F-----7|.",
        ".||.....||.",
        ".||.....||.",
        ".|L-7.F-J|.",
        ".|..|.|..|.",
        ".L--J.L--J.",
        "...........",
    ]);
    let s = find_start(&g).unwrap();
    let pipe = infer(&g, &s).unwrap();
    assert_eq!(pipe, Pipe::SouthEast);
    let g2 = with_start_pipe(&g, &s, pipe);
    assert_eq!(g2[1][1], Pipe::SouthEast);
    let (next, _) = get_connections(&g2, &s).unwrap();
    let path = follow_loop(&g2, &s, &next, 1000).unwrap();
    assert_eq!(count_enclosed(&g2, &path), Ok(4));
    assert_eq!(count_enclosed(&g2, &vec![]), Ok(0));
    assert_eq!(count_enclosed(&g2, &vec![Point::new(0, 0)]), Err(PipeError::BadLoopTile));
}
