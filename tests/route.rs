use aoc23::route::{find_best_route, find_best_route_by_cell, parse_grid, Direction, GridError, Path, Point};

fn example_lines() -> Vec<String> {
    vec![
        "2413432311323",
        "3215453535623",
        "3255245654254",
        "3446585845452",
        "4546657867536",
        "1438598798454",
        "4457876987766",
        "3637877979653",
        "4654967986887",
        "4564679986453",
        "1224686865563",
        "2546548887735",
        "4322674655533",
    ]
    .into_iter()
    .map(|s| s.to_string())
    .collect()
}

fn example_grid() -> Vec<Vec<usize>> {
    parse_grid(&example_lines()).unwrap()
}

// Keying the frontier by cell alone, instead of by (cell, direction, run), prunes a
// neighbour as soon as some frontier path ends on the same cell at no higher cost.
// That changes the route found: on the example it costs 105, not 102.
#[test]
fn example_route_by_cell() {
    let grid = example_grid();
    let route = find_best_route_by_cell(&grid, &Point::new(0, 0), &Point::new(12, 12)).unwrap();
    assert_eq!(route.cost, 105);
    assert_eq!(route.points[0], Point::new(0, 0));
    assert_eq!(*route.points.last().unwrap(), Point::new(12, 12));
    let sum: usize = route.points[1..].iter().map(|p| grid[p.y][p.x]).sum();
    assert_eq!(sum, route.cost);
}

#[test]
fn example_route_costs_102() {
    let grid = example_grid();
    let route = find_best_route(&grid, &Point::new(0, 0), &Point::new(12, 12)).unwrap();
    assert_eq!(route.cost, 102);
    assert_eq!(route.points[0], Point::new(0, 0));
    assert_eq!(*route.points.last().unwrap(), Point::new(12, 12));
    let sum: usize = route.points[1..].iter().map(|p| grid[p.y][p.x]).sum();
    assert_eq!(sum, 102);
    let again = find_best_route(&grid, &Point::new(0, 0), &Point::new(12, 12)).unwrap();
    assert_eq!(again.cost, 102);
}

#[test]
fn search_is_repeatable() {
    let grid = example_grid();
    let a = find_best_route(&grid, &Point::new(0, 0), &Point::new(12, 12)).unwrap();
    let b = find_best_route(&grid, &Point::new(0, 0), &Point::new(12, 12)).unwrap();
    assert_eq!(a.cost, b.cost);
    assert_eq!(a.points, b.points);
}

#[test]
fn single_cell_route_is_the_start() {
    let grid = parse_grid(&vec!["7".to_string()]).unwrap();
    let route = find_best_route(&grid, &Point::new(0, 0), &Point::new(0, 0)).unwrap();
    assert_eq!(route.cost, 0);
    assert_eq!(route.points, vec![Point::new(0, 0)]);
    let route = find_best_route_by_cell(&grid, &Point::new(0, 0), &Point::new(0, 0)).unwrap();
    assert_eq!(route.cost, 0);
    assert_eq!(route.points, vec![Point::new(0, 0)]);
}

#[test]
fn neighbors_stay_on_grid_and_keep_rules() {
    let grid = parse_grid(&vec!["123".to_string(), "456".to_string()]).unwrap();
    let start = Path::new(Point::new(0, 0));
    let n = start.get_neighbors(&grid);
    assert_eq!(n.len(), 2);
    assert_eq!(n[0].dir, Some(Direction::Down));
    assert_eq!(n[0].cost, 4);
    assert_eq!(n[1].dir, Some(Direction::Right));
    assert_eq!(n[1].cost, 2);
    for p in &n {
        assert_eq!(p.n_straight, 0);
        let last = p.last_point();
        assert!(last.x < 3 && last.y < 2);
    }
    // After moving right, moving left would reverse.
    let right = start.with_next(&Point::new(1, 0), 2, Direction::Right);
    let n = right.get_neighbors(&grid);
    assert!(n.iter().all(|p| p.dir != Some(Direction::Left)));
}

#[test]
fn straight_run_stops_after_three_moves() {
    let grid = parse_grid(&vec!["11111".to_string()]).unwrap();
    let p = Path::new(Point::new(0, 0));
    let p = p.with_next(&Point::new(1, 0), 1, Direction::Right);
    assert_eq!(p.n_straight, 0);
    let p = p.with_next(&Point::new(2, 0), 1, Direction::Right);
    assert_eq!(p.n_straight, 1);
    let p = p.with_next(&Point::new(3, 0), 1, Direction::Right);
    assert_eq!(p.n_straight, 2);
    assert_eq!(p.cost, 3);
    assert!(p.get_neighbors(&grid).is_empty());
    let q = Path::new(Point::new(0, 0))
        .with_next(&Point::new(1, 0), 1, Direction::Right)
        .with_next(&Point::new(2, 0), 1, Direction::Right);
    let n = q.get_neighbors(&grid);
    assert_eq!(n.len(), 1);
    assert_eq!(n[0].n_straight, 2);
}

#[test]
fn extend_sums_step_costs() {
    let steps = [
        (Point::new(1, 0), 3, Direction::Right),
        (Point::new(1, 1), 5, Direction::Down),
        (Point::new(2, 1), 9, Direction::Right),
    ];
    let mut p = Path::new(Point::new(0, 0));
    for (pt, c, d) in steps.iter() {
        p = p.with_next(pt, *c, *d);
    }
    assert_eq!(p.cost, 17);
    assert_eq!(p.points.len(), 4);
    assert_eq!(p.n_straight, 0);
}

#[test]
fn unreachable_goal_gives_none_when_frontier_empties() {
    // One row: the far end needs four moves right in a row, which the rules forbid.
    let grid = parse_grid(&vec!["11111".to_string()]).unwrap();
    assert!(find_best_route(&grid, &Point::new(0, 0), &Point::new(4, 0)).is_none());
    assert!(find_best_route_by_cell(&grid, &Point::new(0, 0), &Point::new(4, 0)).is_none());
    assert_eq!(find_best_route(&grid, &Point::new(0, 0), &Point::new(3, 0)).unwrap().cost, 3);
}

#[test]
fn grid_errors() {
    assert_eq!(parse_grid(&vec![]), Err(GridError::Empty));
    assert_eq!(parse_grid(&vec!["".to_string()]), Err(GridError::Empty));
    assert_eq!(parse_grid(&vec!["12".to_string(), "1".to_string()]), Err(GridError::Ragged));
    assert_eq!(parse_grid(&vec!["1a".to_string()]), Err(GridError::NotADigit));
    assert_eq!(parse_grid(&vec!["09".to_string()]), Ok(vec![vec![0, 9]]));
}

#[test]
fn point_distance_and_steps() {
    assert_eq!(Point::new(1, 5).dist(&Point::new(4, 2)), 6);
    assert_eq!(Point::new(0, 0).step(&Direction::Left, 3, 3), None);
    assert_eq!(Point::new(2, 2).step(&Direction::Down, 3, 3), None);
    assert_eq!(Point::new(1, 1).step(&Direction::Up, 3, 3), Some(Point::new(1, 0)));
    assert_eq!(Direction::Up.rev(), Direction::Down);
    assert_eq!(Direction::Left.rev(), Direction::Right);
}
