use vstd::prelude::*;

verus! {

#[derive(Debug, Hash, Clone, Copy, PartialEq, Eq, Structural)]
pub struct Point {
    pub x: i32,
    pub y: i32,
}

/// `p` and the points up to `m` steps from it have coordinates in `i32`.
pub open spec fn in_margin(p: Point, m: int) -> bool {
    i32::MIN + m <= p.x <= i32::MAX - m && i32::MIN + m <= p.y <= i32::MAX - m
}

impl Point {
    pub fn new(x: i32, y: i32) -> (r: Point)
        ensures
            r == (Point { x, y }),
    {
        Point { x, y }
    }

    pub open spec fn up(self) -> Point {
        Point { x: self.x, y: (self.y - 1) as i32 }
    }

    pub open spec fn down(self) -> Point {
        Point { x: self.x, y: (self.y + 1) as i32 }
    }

    pub open spec fn right(self) -> Point {
        Point { x: (self.x + 1) as i32, y: self.y }
    }

    pub open spec fn left(self) -> Point {
        Point { x: (self.x - 1) as i32, y: self.y }
    }

    pub fn north(&self) -> (r: Point)
        requires
            self.y > i32::MIN,
        ensures
            r == self.up(),
    {
        Point::new(self.x, self.y - 1)
    }

    pub fn south(&self) -> (r: Point)
        requires
            self.y < i32::MAX,
        ensures
            r == self.down(),
    {
        Point::new(self.x, self.y + 1)
    }

    pub fn east(&self) -> (r: Point)
        requires
            self.x < i32::MAX,
        ensures
            r == self.right(),
    {
        Point::new(self.x + 1, self.y)
    }

    pub fn west(&self) -> (r: Point)
        requires
            self.x > i32::MIN,
        ensures
            r == self.left(),
    {
        Point::new(self.x - 1, self.y)
    }
}

#[derive(Debug, Clone, Copy, PartialEq, Eq, Structural)]
pub enum Pipe {
    Start,
    Ground,
    NorthSouth,
    EastWest,
    NorthEast,
    NorthWest,
    SouthEast,
    SouthWest,
}

/// Why the pipe maze could not be read or followed.
#[derive(Debug, Clone, Copy, PartialEq, Eq, Structural)]
pub enum PipeError {
    /// A character that names no pipe.
    InvalidPipe,
    /// No start tile.
    NoStart,
    /// A position beyond the range of `i32`.
    OutOfRange,
    /// A tile that connects to nothing.
    NoConnections,
    /// Connections that no pipe makes.
    NoPipeFits,
    /// A tile whose connections cannot be followed (see `followable`).
    Unfollowable,
    /// The pipes do not lead back to the start within as many steps as there are tiles.
    NoLoop,
    /// A tile of one way round the loop that the other way does not reach.
    Unmatched,
    /// A loop with no tile but the start.
    NoPoints,
    /// A bend of the loop closed on a row before one was opened.
    NoHalfBend,
    /// Ground or a start tile on the loop.
    BadLoopTile,
}

impl Pipe {
    pub open spec fn of_char(c: char) -> Option<Pipe> {
        if c == 'S' {
            Some(Pipe::Start)
        } else if c == '.' {
            Some(Pipe::Ground)
        } else if c == '|' {
            Some(Pipe::NorthSouth)
        } else if c == '-' {
            Some(Pipe::EastWest)
        } else if c == 'L' {
            Some(Pipe::NorthEast)
        } else if c == 'J' {
            Some(Pipe::NorthWest)
        } else if c == 'F' {
            Some(Pipe::SouthEast)
        } else if c == '7' {
            Some(Pipe::SouthWest)
        } else {
            None
        }
    }

    pub fn try_from(c: char) -> (r: Result<Pipe, PipeError>)
        ensures
            match Pipe::of_char(c) {
                Some(p) => r == Ok::<Pipe, PipeError>(p),
                None => r == Err::<Pipe, PipeError>(PipeError::InvalidPipe),
            },
    {
        match c {
            'S' => Ok(Pipe::Start),
            '.' => Ok(Pipe::Ground),
            '|' => Ok(Pipe::NorthSouth),
            '-' => Ok(Pipe::EastWest),
            'L' => Ok(Pipe::NorthEast),
            'J' => Ok(Pipe::NorthWest),
            'F' => Ok(Pipe::SouthEast),
            '7' => Ok(Pipe::SouthWest),
            _ => Err(PipeError::InvalidPipe),
        }
    }
}

/// The tile at `p`, where `p` lies on the grid.
pub open spec fn pipe_at(g: Seq<Vec<Pipe>>, p: Point) -> Option<Pipe> {
    if 0 <= p.y < g.len() && 0 <= p.x < g[p.y as int]@.len() {
        Some(g[p.y as int]@[p.x as int])
    } else {
        None
    }
}

/// The two points that a pipe other than the start joins at `p`.
pub open spec fn plain_links(pipe: Pipe, p: Point) -> Option<(Point, Point)> {
    match pipe {
        Pipe::NorthSouth => Some((p.up(), p.down())),
        Pipe::EastWest => Some((p.right(), p.left())),
        Pipe::NorthEast => Some((p.up(), p.right())),
        Pipe::NorthWest => Some((p.up(), p.left())),
        Pipe::SouthEast => Some((p.down(), p.right())),
        Pipe::SouthWest => Some((p.down(), p.left())),
        _ => None,
    }
}

/// The pipe at `q`, not the start, joins `p`.
pub open spec fn joins(g: Seq<Vec<Pipe>>, q: Point, p: Point) -> bool {
    match pipe_at(g, q) {
        Some(pipe) => match plain_links(pipe, q) {
            Some((a, b)) => a == p || b == p,
            None => false,
        },
        None => false,
    }
}

/// The two neighbours that join the start at `p`, in the order north and south,
/// east and west, north and east, north and west, south and east, south and west.
pub open spec fn start_links(g: Seq<Vec<Pipe>>, p: Point) -> Option<(Point, Point)> {
    let nt = joins(g, p.up(), p);
    let st = joins(g, p.down(), p);
    let et = joins(g, p.right(), p);
    let wt = joins(g, p.left(), p);
    if nt && st {
        Some((p.up(), p.down()))
    } else if et && wt {
        Some((p.right(), p.left()))
    } else if nt && et {
        Some((p.up(), p.right()))
    } else if nt && wt {
        Some((p.up(), p.left()))
    } else if st && et {
        Some((p.down(), p.right()))
    } else if st && wt {
        Some((p.down(), p.left()))
    } else {
        None
    }
}

/// The two points that the tile at `p` joins.
pub open spec fn links(g: Seq<Vec<Pipe>>, p: Point) -> Option<(Point, Point)> {
    match pipe_at(g, p) {
        Some(Pipe::Start) => start_links(g, p),
        Some(pipe) => plain_links(pipe, p),
        None => None,
    }
}

/// The connections at `p` can be followed: its neighbours have coordinates in `i32`,
/// and where `p` is the start, no neighbour is a start too and two of them join it.
pub open spec fn followable(g: Seq<Vec<Pipe>>, p: Point) -> bool {
    &&& in_margin(p, 1)
    &&& pipe_at(g, p) == Some(Pipe::Start) ==> {
        &&& in_margin(p, 2)
        &&& pipe_at(g, p.up()) != Some(Pipe::Start)
        &&& pipe_at(g, p.down()) != Some(Pipe::Start)
        &&& pipe_at(g, p.right()) != Some(Pipe::Start)
        &&& pipe_at(g, p.left()) != Some(Pipe::Start)
        &&& start_links(g, p) is Some
    }
}

/// The tile at `point`, where it lies on the grid.
pub fn get_point(grid: &Vec<Vec<Pipe>>, point: &Point) -> (r: Option<Pipe>)
    ensures
        r == pipe_at(grid@, *point),
{
    if point.y < 0 || point.y as usize >= grid.len() {
        return None;
    }
    let row = &grid[point.y as usize];
    if point.x < 0 || point.x as usize >= row.len() {
        return None;
    }
    Some(row[point.x as usize])
}

fn plain_connections(pipe: Pipe, point: &Point) -> (r: Option<(Point, Point)>)
    requires
        in_margin(*point, 1),
    ensures
        r == plain_links(pipe, *point),
{
    match pipe {
        Pipe::NorthSouth => Some((point.north(), point.south())),
        Pipe::EastWest => Some((point.east(), point.west())),
        Pipe::NorthEast => Some((point.north(), point.east())),
        Pipe::NorthWest => Some((point.north(), point.west())),
        Pipe::SouthEast => Some((point.south(), point.east())),
        Pipe::SouthWest => Some((point.south(), point.west())),
        _ => None,
    }
}

fn joins_plain(grid: &Vec<Vec<Pipe>>, q: &Point, p: &Point) -> (r: bool)
    requires
        in_margin(*q, 1),
    ensures
        r == joins(grid@, *q, *p),
{
    match get_point(grid, q) {
        Some(pipe) => match plain_connections(pipe, q) {
            Some((a, b)) => a == *p || b == *p,
            None => false,
        },
        None => false,
    }
}

/// The two points that the tile at `point` joins: for the start, the two
/// neighbours whose pipes join it.
pub fn get_connections(grid: &Vec<Vec<Pipe>>, point: &Point) -> (r: Option<(Point, Point)>)
    requires
        followable(grid@, *point),
    ensures
        r == links(grid@, *point),
{
    match get_point(grid, point) {
        Some(Pipe::Start) => {
            let north = point.north();
            let south = point.south();
            let east = point.east();
            let west = point.west();
            let nt = joins_plain(grid, &north, point);
            let st = joins_plain(grid, &south, point);
            let et = joins_plain(grid, &east, point);
            let wt = joins_plain(grid, &west, point);
            if nt && st {
                return Some((north, south));
            }
            if et && wt {
                return Some((east, west));
            }
            if nt && et {
                return Some((north, east));
            }
            if nt && wt {
                return Some((north, west));
            }
            if st && et {
                return Some((south, east));
            }
            if st && wt {
                return Some((south, west));
            }
            None
        },
        Some(pipe) => plain_connections(pipe, point),
        None => None,
    }
}

/// The tile at `p1` joins `p2`.
pub fn touches(grid: &Vec<Vec<Pipe>>, p1: &Point, p2: &Point) -> (r: bool)
    requires
        followable(grid@, *p1),
    ensures
        r == match links(grid@, *p1) {
            Some((a, b)) => a == *p2 || b == *p2,
            None => false,
        },
{
    match get_connections(grid, p1) {
        Some((c1, c2)) => c1 == *p2 || c2 == *p2,
        None => false,
    }
}

/// The pipe that makes the connections found at `point`.
pub fn infer(grid: &Vec<Vec<Pipe>>, point: &Point) -> (r: Result<Pipe, PipeError>)
    requires
        followable(grid@, *point),
    ensures
        match links(grid@, *point) {
            None => r == Err::<Pipe, PipeError>(PipeError::NoConnections),
            Some((a, b)) => {
                let n = a == point.up() || b == point.up();
                let s = a == point.down() || b == point.down();
                let e = a == point.right() || b == point.right();
                let w = a == point.left() || b == point.left();
                r == if n && s {
                    Ok::<Pipe, PipeError>(Pipe::NorthSouth)
                } else if n && e {
                    Ok(Pipe::NorthEast)
                } else if n && w {
                    Ok(Pipe::NorthWest)
                } else if s && e {
                    Ok(Pipe::SouthEast)
                } else if s && w {
                    Ok(Pipe::SouthWest)
                } else if e && w {
                    Ok(Pipe::EastWest)
                } else {
                    Err(PipeError::NoPipeFits)
                }
            },
        },
{
    let (a, b) = match get_connections(grid, point) {
        Some(c) => c,
        None => {
            return Err(PipeError::NoConnections);
        },
    };
    let north = point.north();
    let south = point.south();
    let east = point.east();
    let west = point.west();
    let connects_north = a == north || b == north;
    let connects_south = a == south || b == south;
    let connects_east = a == east || b == east;
    let connects_west = a == west || b == west;
    if connects_north && connects_south {
        return Ok(Pipe::NorthSouth);
    }
    if connects_north && connects_east {
        return Ok(Pipe::NorthEast);
    }
    if connects_north && connects_west {
        return Ok(Pipe::NorthWest);
    }
    if connects_south && connects_east {
        return Ok(Pipe::SouthEast);
    }
    if connects_south && connects_west {
        return Ok(Pipe::SouthWest);
    }
    if connects_east && connects_west {
        return Ok(Pipe::EastWest);
    }
    Err(PipeError::NoPipeFits)
}

/// The first start tile, row by row from the top.
pub fn find_start(grid: &Vec<Vec<Pipe>>) -> (r: Result<Point, PipeError>)
    ensures
        r matches Ok(p) ==> pipe_at(grid@, p) == Some(Pipe::Start) && forall|y: int, x: int|
            0 <= y < grid@.len() && 0 <= x < grid@[y]@.len() && (y < p.y || (y == p.y && x < p.x))
                ==> #[trigger] grid@[y]@[x] != Pipe::Start,
        r == Err::<Point, PipeError>(PipeError::NoStart) ==> forall|y: int, x: int|
            0 <= y < grid@.len() && 0 <= x < grid@[y]@.len() ==> #[trigger] grid@[y]@[x] != Pipe::Start,
        r == Err::<Point, PipeError>(PipeError::OutOfRange) ==> exists|y: int, x: int|
            0 <= y < grid@.len() && 0 <= x < grid@[y]@.len() && #[trigger] grid@[y]@[x] == Pipe::Start
                && (y > i32::MAX || x > i32::MAX),
        r is Err ==> r == Err::<Point, PipeError>(PipeError::NoStart) || r == Err::<Point, PipeError>(PipeError::OutOfRange),
{
    let mut y: usize = 0;
    while y < grid.len()
        invariant
            y <= grid@.len(),
            forall|k: int, x: int|
                0 <= k < y && 0 <= x < grid@[k]@.len() ==> #[trigger] grid@[k]@[x] != Pipe::Start,
        decreases grid@.len() - y,
    {
        let row = &grid[y];
        let mut x: usize = 0;
        while x < row.len()
            invariant
                y < grid@.len(),
                row == grid@[y as int],
                x <= row@.len(),
                forall|k: int, c: int|
                    0 <= k < y && 0 <= c < grid@[k]@.len() ==> #[trigger] grid@[k]@[c] != Pipe::Start,
                forall|c: int| 0 <= c < x ==> #[trigger] row@[c] != Pipe::Start,
            decreases row@.len() - x,
        {
            if row[x] == Pipe::Start {
                if x > i32::MAX as usize || y > i32::MAX as usize {
                    return Err(PipeError::OutOfRange);
                }
                return Ok(Point::new(x as i32, y as i32));
            }
            x += 1;
        }
        y += 1;
    }
    Err(PipeError::NoStart)
}


/// Whether the connections at `p` can be followed.
pub fn is_followable(grid: &Vec<Vec<Pipe>>, p: &Point) -> (r: bool)
    ensures
        r == followable(grid@, *p),
{
    if !(p.x > i32::MIN && p.x < i32::MAX && p.y > i32::MIN && p.y < i32::MAX) {
        return false;
    }
    match get_point(grid, p) {
        Some(Pipe::Start) => {},
        _ => {
            return true;
        },
    }
    if !(p.x > i32::MIN + 1 && p.x < i32::MAX - 1 && p.y > i32::MIN + 1 && p.y < i32::MAX - 1) {
        return false;
    }
    let north = p.north();
    let south = p.south();
    let east = p.east();
    let west = p.west();
    if get_point(grid, &north) == Some(Pipe::Start) || get_point(grid, &south) == Some(Pipe::Start)
        || get_point(grid, &east) == Some(Pipe::Start) || get_point(grid, &west) == Some(Pipe::Start) {
        return false;
    }
    let nt = joins_plain(grid, &north, p);
    let st = joins_plain(grid, &south, p);
    let et = joins_plain(grid, &east, p);
    let wt = joins_plain(grid, &west, p);
    (nt && st) || (et && wt) || (nt && et) || (nt && wt) || (st && et) || (st && wt)
}

/// The point a walk goes on to from a tile joining `l`, having come from `prev`.
pub open spec fn next_point(l: (Point, Point), prev: Point) -> Point {
    if l.0 != prev {
        l.0
    } else {
        l.1
    }
}

/// The points a walk visits after `this`, having come from `prev`, up to and with its
/// return to `start`, in at most `fuel` steps.
pub open spec fn walk(g: Seq<Vec<Pipe>>, start: Point, prev: Point, this: Point, fuel: nat) -> Result<Seq<Point>, PipeError>
    decreases fuel,
{
    if this == start {
        Ok(seq![])
    } else if fuel == 0 {
        Err(PipeError::NoLoop)
    } else if !followable(g, this) {
        Err(PipeError::Unfollowable)
    } else {
        match links(g, this) {
            None => Err(PipeError::NoConnections),
            Some(l) => {
                let nx = next_point(l, prev);
                match walk(g, start, this, nx, (fuel - 1) as nat) {
                    Ok(rest) => Ok(seq![nx] + rest),
                    Err(e) => Err(e),
                }
            },
        }
    }
}

/// Follows the pipes from `start` by way of `first` until they lead back to `start`:
/// the points visited, `start` first and last.
pub fn follow_loop(grid: &Vec<Vec<Pipe>>, start: &Point, first: &Point, fuel: usize) -> (r: Result<Vec<Point>, PipeError>)
    ensures
        match walk(grid@, *start, *start, *first, fuel as nat) {
            Ok(rest) => r matches Ok(v) && v@ == seq![*start, *first] + rest,
            Err(e) => r == Err::<Vec<Point>, PipeError>(e),
        },
{
    let ghost g = grid@;
    let ghost goal = walk(g, *start, *start, *first, fuel as nat);
    let mut path: Vec<Point> = vec![*start, *first];
    let mut prev = *start;
    let mut this = *first;
    let mut left = fuel;
    assert(path@.skip(2) =~= Seq::<Point>::empty());
    while this != *start
        invariant
            g == grid@,
            path@.len() >= 2,
            path@.take(2) == seq![*start, *first],
            goal == match walk(g, *start, prev, this, left as nat) {
                Ok(t) => Ok(path@.skip(2) + t),
                Err(e) => Err(e),
            },
            goal == walk(g, *start, *start, *first, fuel as nat),
        decreases left,
    {
        if left == 0 {
            return Err(PipeError::NoLoop);
        }
        if !is_followable(grid, &this) {
            return Err(PipeError::Unfollowable);
        }
        let (a, b) = match get_connections(grid, &this) {
            Some(l) => l,
            None => {
                return Err(PipeError::NoConnections);
            },
        };
        let nx = if a != prev { a } else { b };
        let ghost before = path@;
        path.push(nx);
        assert(path@.take(2) =~= before.take(2));
        assert(path@.skip(2) =~= before.skip(2).push(nx));
        proof {
            match walk(g, *start, this, nx, (left - 1) as nat) {
                Ok(t) => {
                    assert(before.skip(2) + (seq![nx] + t) =~= path@.skip(2) + t);
                },
                Err(_) => {},
            }
        }
        prev = this;
        this = nx;
        left -= 1;
    }
    assert(path@ =~= seq![*start, *first] + path@.skip(2));
    assert(path@.skip(2) + Seq::<Point>::empty() =~= path@.skip(2));
    Ok(path)
}


/// The last position of `p` in `s`, or -1.
pub open spec fn last_index(s: Seq<Point>, p: Point) -> int
    decreases s.len(),
{
    if s.len() == 0 {
        -1
    } else if s.last() == p {
        s.len() - 1
    } else {
        last_index(s.drop_last(), p)
    }
}

proof fn lemma_last_index_range(s: Seq<Point>, p: Point)
    ensures
        -1 <= last_index(s, p) < s.len(),
    decreases s.len(),
{
    if s.len() > 0 {
        lemma_last_index_range(s.drop_last(), p);
    }
}

/// Over the first `n` points of the way `a` round the loop, other than the start, the
/// largest of the smaller of the two step counts at which the two ways `a` and `b`
/// last reach the point; -1 where there is none.
pub open spec fn farthest_in(a: Seq<Point>, b: Seq<Point>, start: Point, n: int) -> Result<int, PipeError>
    decreases n,
{
    if n <= 0 {
        Ok(-1)
    } else {
        match farthest_in(a, b, start, n - 1) {
            Err(e) => Err(e),
            Ok(best) => {
                let p = a[n - 1];
                if p == start {
                    Ok(best)
                } else if last_index(b, p) < 0 {
                    Err(PipeError::Unmatched)
                } else {
                    let d1 = last_index(a, p);
                    let d2 = last_index(b, p);
                    let d = if d1 < d2 { d1 } else { d2 };
                    Ok(if d > best { d } else { best })
                }
            },
        }
    }
}

fn last_index_of(s: &Vec<Point>, p: Point) -> (r: Option<usize>)
    ensures
        last_index(s@, p) < 0 ==> r is None,
        last_index(s@, p) >= 0 ==> r == Some(last_index(s@, p) as usize),
{
    proof {
        lemma_last_index_range(s@, p);
    }
    let mut i: usize = s.len();
    assert(s@.take(i as int) =~= s@);
    while i > 0
        invariant
            i <= s@.len(),
            last_index(s@, p) == last_index(s@.take(i as int), p),
        decreases i,
    {
        assert(s@.take(i as int).drop_last() =~= s@.take(i - 1));
        if s[i - 1] == p {
            return Some(i - 1);
        }
        i -= 1;
    }
    None
}

/// The most steps from the start to any tile of the loop, going round the shorter
/// way, given the two walks round it (`path1` and `path2`, each from the start back
/// to it): for each tile of `path1` but the start, the smaller of the positions at
/// which the two walks last reach it, and the largest of those.
pub fn farthest(path1: &Vec<Point>, path2: &Vec<Point>, start: Point) -> (r: Result<usize, PipeError>)
    ensures
        match farthest_in(path1@, path2@, start, path1@.len() as int) {
            Ok(d) => if d < 0 {
                r == Err::<usize, PipeError>(PipeError::NoPoints)
            } else {
                r == Ok::<usize, PipeError>(d as usize)
            },
            Err(e) => r == Err::<usize, PipeError>(e),
        },
{
    let mut best: Option<usize> = None;
    let mut i: usize = 0;
    while i < path1.len()
        invariant
            i <= path1@.len(),
            match best {
                None => farthest_in(path1@, path2@, start, i as int) == Ok::<int, PipeError>(-1),
                Some(b) => farthest_in(path1@, path2@, start, i as int) == Ok::<int, PipeError>(b as int),
            },
        decreases path1@.len() - i,
    {
        let p = path1[i];
        if p != start {
            let n2 = path2.len();
            proof {
                lemma_last_index_range(path2@, p);
                assert(last_index(path2@, p) < n2);
            }
            let d2 = match last_index_of(path2, p) {
                Some(d) => d,
                None => {
                    proof {
                        lemma_farthest_fails(path1@, path2@, start, i + 1, path1@.len() as int);
                    }
                    return Err(PipeError::Unmatched);
                },
            };
            proof {
                lemma_last_index_range(path1@, p);
                lemma_last_index_found(path1@, i as int);
            }
            let d1 = match last_index_of(path1, p) {
                Some(d) => d,
                None => {
                    return Err(PipeError::Unmatched);
                },
            };
            let d = if d1 < d2 { d1 } else { d2 };
            assert(d1 as int == last_index(path1@, p));
            assert(d2 as int == last_index(path2@, p));
            assert(path1@[i as int] == p);
            let ghost prevbest: int = match best { Some(b) => b as int, None => -1 };
            assert(farthest_in(path1@, path2@, start, i as int) == Ok::<int, PipeError>(prevbest));
            assert(farthest_in(path1@, path2@, start, i + 1) == Ok::<int, PipeError>(if d as int > prevbest { d as int } else { prevbest }));
            best = match best {
                Some(b) => Some(if d > b { d } else { b }),
                None => Some(d),
            };
        } else {
            assert(path1@[i as int] == start);
            assert(farthest_in(path1@, path2@, start, i + 1) == farthest_in(path1@, path2@, start, i as int));
        }
        i += 1;
    }
    match best {
        Some(b) => Ok(b),
        None => Err(PipeError::NoPoints),
    }
}

proof fn lemma_last_index_found(s: Seq<Point>, i: int)
    requires
        0 <= i < s.len(),
    ensures
        last_index(s, s[i]) >= i,
    decreases s.len(),
{
    if s.last() != s[i] {
        lemma_last_index_found(s.drop_last(), i);
    }
}

proof fn lemma_farthest_fails(a: Seq<Point>, b: Seq<Point>, start: Point, k: int, n: int)
    requires
        1 <= k <= n <= a.len(),
        farthest_in(a, b, start, k) is Err,
    ensures
        farthest_in(a, b, start, n) == farthest_in(a, b, start, k),
    decreases n - k,
{
    if k < n {
        lemma_farthest_fails(a, b, start, k, n - 1);
    }
}


/// The grid with the tile at `p` replaced by `pipe`.
pub open spec fn with_tile(g: Seq<Vec<Pipe>>, p: Point, pipe: Pipe) -> Seq<Seq<Pipe>> {
    Seq::new(
        g.len(),
        |y: int|
            if y == p.y {
                g[y]@.update(p.x as int, pipe)
            } else {
                g[y]@
            },
    )
}

/// The grid with the start tile (at `p`) replaced by the pipe it stands for.
pub fn with_start_pipe(grid: &Vec<Vec<Pipe>>, p: &Point, pipe: Pipe) -> (r: Vec<Vec<Pipe>>)
    requires
        pipe_at(grid@, *p) is Some,
    ensures
        r@.map_values(|row: Vec<Pipe>| row@) == with_tile(grid@, *p, pipe),
{
    let mut out: Vec<Vec<Pipe>> = Vec::new();
    let mut y: usize = 0;
    while y < grid.len()
        invariant
            pipe_at(grid@, *p) is Some,
            y <= grid@.len(),
            out@.len() == y,
            forall|k: int| 0 <= k < y ==> (#[trigger] out@[k])@ == with_tile(grid@, *p, pipe)[k],
        decreases grid@.len() - y,
    {
        let row = &grid[y];
        let mut copy: Vec<Pipe> = Vec::new();
        let mut x: usize = 0;
        while x < row.len()
            invariant
                x <= row@.len(),
                copy@ == row@.take(x as int),
            decreases row@.len() - x,
        {
            copy.push(row[x]);
            x += 1;
            assert(copy@ =~= row@.take(x as int));
        }
        assert(copy@ =~= row@);
        if p.y >= 0 && p.y as usize == y {
            let px = p.x as usize;
            assert(px as int == p.x as int);
            copy.set(px, pipe);
        }
        assert(copy@ =~= with_tile(grid@, *p, pipe)[y as int]);
        out.push(copy);
        y += 1;
    }
    assert(out@.map_values(|row: Vec<Pipe>| row@) =~= with_tile(grid@, *p, pipe));
    out
}

/// The state of a row's scan after its first `n` tiles: whether the scan is inside
/// the loop, the bend that opened the run of loop tiles it is in, and how many tiles
/// off the loop it has found inside.
pub open spec fn row_scan(row: Seq<Pipe>, y: int, path: Seq<Point>, n: int) -> Result<(bool, Option<Pipe>, int), PipeError>
    decreases n,
{
    if n <= 0 {
        Ok((false, None, 0))
    } else {
        match row_scan(row, y, path, n - 1) {
            Err(e) => Err(e),
            Ok((inside, half, count)) => {
                let p = Point { x: (n - 1) as i32, y: y as i32 };
                let pipe = row[n - 1];
                if path.contains(p) {
                    match pipe {
                        Pipe::NorthSouth => Ok((!inside, half, count)),
                        Pipe::EastWest => Ok((inside, half, count)),
                        Pipe::NorthEast | Pipe::SouthEast => Ok((inside, Some(pipe), count)),
                        Pipe::NorthWest => match half {
                            None => Err(PipeError::NoHalfBend),
                            Some(h) => Ok((if h == Pipe::SouthEast { !inside } else { inside }, half, count)),
                        },
                        Pipe::SouthWest => match half {
                            None => Err(PipeError::NoHalfBend),
                            Some(h) => Ok((if h == Pipe::NorthEast { !inside } else { inside }, half, count)),
                        },
                        _ => Err(PipeError::BadLoopTile),
                    }
                } else {
                    Ok((inside, half, if inside { count + 1 } else { count }))
                }
            },
        }
    }
}

/// The tiles off the loop that the first `n` rows hold inside it: each row is scanned
/// left to right, a vertical crossing of the loop flipping inside and outside.
pub open spec fn enclosed(g: Seq<Seq<Pipe>>, path: Seq<Point>, n: int) -> Result<int, PipeError>
    decreases n,
{
    if n <= 0 {
        Ok(0)
    } else {
        match enclosed(g, path, n - 1) {
            Err(e) => Err(e),
            Ok(c) => match row_scan(g[n - 1], n - 1, path, g[n - 1].len() as int) {
                Err(e) => Err(e),
                Ok((_, _, k)) => Ok(c + k),
            },
        }
    }
}

fn on_path(path: &Vec<Point>, p: Point) -> (r: bool)
    ensures
        r == path@.contains(p),
{
    let mut i: usize = 0;
    while i < path.len()
        invariant
            i <= path@.len(),
            forall|k: int| 0 <= k < i ==> path@[k] != p,
        decreases path@.len() - i,
    {
        if path[i] == p {
            return true;
        }
        i += 1;
    }
    false
}

proof fn lemma_scan_count(row: Seq<Pipe>, y: int, path: Seq<Point>, n: int)
    requires
        n >= 0,
    ensures
        row_scan(row, y, path, n) matches Ok((_, _, c)) ==> 0 <= c <= n,
    decreases n,
{
    if n > 0 {
        lemma_scan_count(row, y, path, n - 1);
    }
}

/// How many tiles off the loop `path` the grid holds inside it, scanning each row
/// left to right.
pub fn count_enclosed(grid: &Vec<Vec<Pipe>>, path: &Vec<Point>) -> (r: Result<u64, PipeError>)
    requires
        grid@.len() <= i32::MAX,
        forall|y: int| 0 <= y < grid@.len() ==> (#[trigger] grid@[y])@.len() <= i32::MAX,
    ensures
        ({
            let g = grid@.map_values(|row: Vec<Pipe>| row@);
            match enclosed(g, path@, g.len() as int) {
                Ok(c) => r matches Ok(v) && v == c,
                Err(e) => r == Err::<u64, PipeError>(e),
            }
        }),
{
    let ghost g = grid@.map_values(|row: Vec<Pipe>| row@);
    let mut total: u64 = 0;
    let mut y: usize = 0;
    while y < grid.len()
        invariant
            g == grid@.map_values(|row: Vec<Pipe>| row@),
            grid@.len() <= i32::MAX,
            forall|k: int| 0 <= k < grid@.len() ==> (#[trigger] grid@[k])@.len() <= i32::MAX,
            y <= grid@.len(),
            enclosed(g, path@, y as int) == Ok::<int, PipeError>(total as int),
            total <= y * i32::MAX,
        decreases grid@.len() - y,
    {
        let row = &grid[y];
        assert(g[y as int] == row@);
        let mut inside = false;
        let mut half: Option<Pipe> = None;
        let mut count: usize = 0;
        let mut x: usize = 0;
        while x < row.len()
            invariant
                g == grid@.map_values(|row: Vec<Pipe>| row@),
                g.len() == grid@.len(),
                g[y as int] == row@,
                enclosed(g, path@, y as int) == Ok::<int, PipeError>(total as int),
                row@.len() <= i32::MAX,
                y < grid@.len(),
                grid@.len() <= i32::MAX,
                x <= row@.len(),
                row_scan(row@, y as int, path@, x as int) == Ok::<(bool, Option<Pipe>, int), PipeError>((inside, half, count as int)),
                count <= x,
            decreases row@.len() - x,
        {
            let p = Point::new(x as i32, y as i32);
            let pipe = row[x];
            if on_path(path, p) {
                match pipe {
                    Pipe::NorthSouth => {
                        inside = !inside;
                    },
                    Pipe::EastWest => {},
                    Pipe::NorthEast | Pipe::SouthEast => {
                        half = Some(pipe);
                    },
                    Pipe::NorthWest => match half {
                        None => {
                            proof {
                                lemma_scan_fails(row@, y as int, path@, x + 1, row@.len() as int);
                                lemma_enclosed_fails(g, path@, y + 1, g.len() as int);
                            }
                            return Err(PipeError::NoHalfBend);
                        },
                        Some(h) => {
                            if h == Pipe::SouthEast {
                                inside = !inside;
                            }
                        },
                    },
                    Pipe::SouthWest => match half {
                        None => {
                            proof {
                                lemma_scan_fails(row@, y as int, path@, x + 1, row@.len() as int);
                                lemma_enclosed_fails(g, path@, y + 1, g.len() as int);
                            }
                            return Err(PipeError::NoHalfBend);
                        },
                        Some(h) => {
                            if h == Pipe::NorthEast {
                                inside = !inside;
                            }
                        },
                    },
                    _ => {
                        proof {
                            lemma_scan_fails(row@, y as int, path@, x + 1, row@.len() as int);
                            lemma_enclosed_fails(g, path@, y + 1, g.len() as int);
                        }
                        return Err(PipeError::BadLoopTile);
                    },
                }
            } else if inside {
                count += 1;
            }
            x += 1;
        }
        assert(count <= i32::MAX);
        assert(total + count <= (y + 1) * i32::MAX) by (nonlinear_arith)
            requires
                total <= y * i32::MAX,
                count <= i32::MAX,
        ;
        assert((y + 1) * i32::MAX <= i32::MAX * i32::MAX) by (nonlinear_arith)
            requires
                y + 1 <= i32::MAX,
        ;
        assert(g[y as int].len() == row@.len());
        total = total + count as u64;
        y += 1;
    }
    Ok(total)
}

proof fn lemma_scan_fails(row: Seq<Pipe>, y: int, path: Seq<Point>, k: int, n: int)
    requires
        1 <= k <= n,
        row_scan(row, y, path, k) is Err,
    ensures
        row_scan(row, y, path, n) == row_scan(row, y, path, k),
    decreases n - k,
{
    if k < n {
        lemma_scan_fails(row, y, path, k, n - 1);
    }
}

proof fn lemma_enclosed_fails(g: Seq<Seq<Pipe>>, path: Seq<Point>, k: int, n: int)
    requires
        1 <= k <= n,
        row_scan(g[k - 1], k - 1, path, g[k - 1].len() as int) is Err,
    ensures
        enclosed(g, path, n) is Err,
        enclosed(g, path, n) == (match enclosed(g, path, k - 1) {
            Err(e) => Err(e),
            Ok(_) => match row_scan(g[k - 1], k - 1, path, g[k - 1].len() as int) {
                Err(e) => Err::<int, PipeError>(e),
                Ok(_) => Ok(0int),
            },
        }),
    decreases n - k,
{
    if k < n {
        lemma_enclosed_fails(g, path, k, n - 1);
    }
}

} // verus!
