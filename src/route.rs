use vstd::prelude::*;
use vstd::string::*;
use crate::text::{is_digit, digit_value};

verus! {

/// The largest traversal cost of one grid cell (a single decimal digit).
pub const MAX_CELL_COST: usize = 9;

/// The most moves that may be taken in one direction before turning.
pub const MAX_RUN: usize = 3;

#[derive(Debug, Clone, Copy, PartialEq, Eq, Structural)]
pub enum Direction {
    Left,
    Right,
    Up,
    Down,
}

impl Direction {
    pub open spec fn opposite(self) -> Direction {
        match self {
            Direction::Left => Direction::Right,
            Direction::Right => Direction::Left,
            Direction::Up => Direction::Down,
            Direction::Down => Direction::Up,
        }
    }

    /// The direction that undoes a move in this one.
    pub fn rev(&self) -> (r: Direction)
        ensures
            r == self.opposite(),
    {
        match self {
            Direction::Left => Direction::Right,
            Direction::Right => Direction::Left,
            Direction::Up => Direction::Down,
            Direction::Down => Direction::Up,
        }
    }
}

#[derive(Debug, Clone, Copy, PartialEq, Eq, Structural)]
pub struct Point {
    pub x: usize,
    pub y: usize,
}

pub open spec fn abs_diff(a: int, b: int) -> int {
    if a > b {
        a - b
    } else {
        b - a
    }
}

/// The grid's number of rows.
pub open spec fn height(g: Seq<Vec<usize>>) -> int {
    g.len() as int
}

/// The grid's number of columns (that of its first row).
pub open spec fn width(g: Seq<Vec<usize>>) -> int {
    if g.len() == 0 {
        0
    } else {
        g[0]@.len() as int
    }
}

/// A rectangular, non-empty grid of single-digit costs.
pub open spec fn grid_wf(g: Seq<Vec<usize>>) -> bool {
    &&& g.len() > 0
    &&& g[0]@.len() > 0
    &&& forall|y: int| 0 <= y < g.len() ==> (#[trigger] g[y])@.len() == g[0]@.len()
    &&& forall|y: int, x: int|
        0 <= y < g.len() && 0 <= x < g[0]@.len() ==> #[trigger] g[y]@[x] <= MAX_CELL_COST
}

/// The cost of entering the cell at `p`.
pub open spec fn cell_cost(g: Seq<Vec<usize>>, p: Point) -> int {
    g[p.y as int]@[p.x as int] as int
}

impl Point {
    pub fn new(x: usize, y: usize) -> (r: Point)
        ensures
            r == (Point { x, y }),
    {
        Point { x, y }
    }

    /// Manhattan distance.
    pub open spec fn manhattan(self, other: Point) -> int {
        abs_diff(self.x as int, other.x as int) + abs_diff(self.y as int, other.y as int)
    }

    pub open spec fn in_bounds(self, w: int, h: int) -> bool {
        self.x < w && self.y < h
    }

    /// The neighbouring point in direction `d`, if it lies within a `w` by `h` grid.
    pub open spec fn moved(self, d: Direction, w: int, h: int) -> Option<Point> {
        match d {
            Direction::Left => if self.x > 0 {
                Some(Point { x: (self.x - 1) as usize, y: self.y })
            } else {
                None
            },
            Direction::Right => if self.x + 1 < w {
                Some(Point { x: (self.x + 1) as usize, y: self.y })
            } else {
                None
            },
            Direction::Up => if self.y > 0 {
                Some(Point { x: self.x, y: (self.y - 1) as usize })
            } else {
                None
            },
            Direction::Down => if self.y + 1 < h {
                Some(Point { x: self.x, y: (self.y + 1) as usize })
            } else {
                None
            },
        }
    }

    pub fn dist(&self, other: &Point) -> (r: usize)
        requires
            self.manhattan(*other) <= usize::MAX,
        ensures
            r == self.manhattan(*other),
    {
        let dx = if self.x > other.x {
            self.x - other.x
        } else {
            other.x - self.x
        };
        let dy = if self.y > other.y {
            self.y - other.y
        } else {
            other.y - self.y
        };
        dx + dy
    }

    /// One step in direction `dir`, or `None` where it would leave a `w` by `h` grid.
    pub fn step(&self, dir: &Direction, w: usize, h: usize) -> (r: Option<Point>)
        requires
            self.in_bounds(w as int, h as int),
        ensures
            r == self.moved(*dir, w as int, h as int),
            r matches Some(q) ==> q.in_bounds(w as int, h as int),
    {
        match dir {
            Direction::Left => {
                if self.x > 0 {
                    Some(Point::new(self.x - 1, self.y))
                } else {
                    None
                }
            },
            Direction::Right => {
                if self.x < w - 1 {
                    Some(Point::new(self.x + 1, self.y))
                } else {
                    None
                }
            },
            Direction::Up => {
                if self.y > 0 {
                    Some(Point::new(self.x, self.y - 1))
                } else {
                    None
                }
            },
            Direction::Down => {
                if self.y < h - 1 {
                    Some(Point::new(self.x, self.y + 1))
                } else {
                    None
                }
            },
        }
    }
}


/// The mathematical content of a [`Path`].
pub struct PathModel {
    pub points: Seq<Point>,
    pub cost: int,
    pub dir: Option<Direction>,
    pub n_straight: int,
}

impl PathModel {
    /// The path that stands at `start` and has not moved yet.
    pub open spec fn at(start: Point) -> PathModel {
        PathModel { points: seq![start], cost: 0, dir: None, n_straight: 0 }
    }

    pub open spec fn last(self) -> Point {
        self.points.last()
    }

    /// The path after one more move, to `next` at cost `c`, in direction `d`.
    pub open spec fn extend(self, next: Point, c: int, d: Direction) -> PathModel {
        PathModel {
            points: self.points.push(next),
            cost: self.cost + c,
            dir: Some(d),
            n_straight: if self.dir == Some(d) {
                self.n_straight + 1
            } else {
                0
            },
        }
    }

    /// A move in `d` neither reverses the last move nor makes a straight run longer
    /// than `MAX_RUN` moves.
    pub open spec fn may_move(self, d: Direction) -> bool {
        &&& self.dir != Some(d.opposite())
        &&& !(self.dir == Some(d) && self.n_straight + 1 >= MAX_RUN)
    }

    /// The estimate that orders the search: the cost so far plus the Manhattan
    /// distance still to go.
    pub open spec fn est_total(self, end: Point) -> int {
        self.cost + self.last().manhattan(end)
    }
}

#[derive(Debug, Clone)]
pub struct Path {
    pub points: Vec<Point>,
    pub cost: usize,
    pub dir: Option<Direction>,
    pub n_straight: usize,
}

impl View for Path {
    type V = PathModel;

    open spec fn view(&self) -> PathModel {
        PathModel {
            points: self.points@,
            cost: self.cost as int,
            dir: self.dir,
            n_straight: self.n_straight as int,
        }
    }
}

/// The models of a sequence of paths.
pub open spec fn models(ps: Seq<Path>) -> Seq<PathModel> {
    ps.map_values(|p: Path| p@)
}

/// The candidate that a move in `d` gives: none where it would leave the grid or
/// break the turning rules.
pub open spec fn candidate(p: PathModel, g: Seq<Vec<usize>>, d: Direction) -> Seq<PathModel> {
    match p.last().moved(d, width(g), height(g)) {
        Some(q) => if p.may_move(d) {
            seq![p.extend(q, cell_cost(g, q), d)]
        } else {
            seq![]
        },
        None => seq![],
    }
}

/// The legal one-move extensions of `p`, in the order up, down, left, right.
pub open spec fn neighbors_of(p: PathModel, g: Seq<Vec<usize>>) -> Seq<PathModel> {
    candidate(p, g, Direction::Up) + candidate(p, g, Direction::Down) + candidate(
        p,
        g,
        Direction::Left,
    ) + candidate(p, g, Direction::Right)
}

impl Path {
    /// The path that stands at `start`, with cost 0, no direction and no run.
    pub fn new(start: Point) -> (r: Path)
        ensures
            r@ == PathModel::at(start),
    {
        let points = vec![start];
        assert(points@ =~= seq![start]);
        Path { points, cost: 0, dir: None, n_straight: 0 }
    }

    pub fn last_point(&self) -> (r: Point)
        requires
            self.points@.len() > 0,
        ensures
            r == self@.last(),
    {
        self.points[self.points.len() - 1]
    }

    /// Manhattan distance from the last point to `end`.
    pub fn est_remaining_cost(&self, end: &Point) -> (r: usize)
        requires
            self.points@.len() > 0,
            self@.last().manhattan(*end) <= usize::MAX,
        ensures
            r == self@.last().manhattan(*end),
    {
        let last_point = self.last_point();
        last_point.dist(end)
    }

    pub fn est_total_cost(&self, end: &Point) -> (r: usize)
        requires
            self.points@.len() > 0,
            self@.est_total(*end) <= usize::MAX,
        ensures
            r == self@.est_total(*end),
    {
        self.cost + self.est_remaining_cost(end)
    }

    /// A new path: this one followed by a move to `next` at cost `cost`, in `dir`.
    pub fn with_next(&self, next: &Point, cost: usize, dir: Direction) -> (r: Path)
        requires
            self.cost + cost <= usize::MAX,
            self.n_straight < usize::MAX,
        ensures
            r@ == self@.extend(*next, cost as int, dir),
    {
        let mut points = self.points.clone();
        assert(points@ =~= self.points@);
        points.push(*next);
        let n_straight = match self.dir {
            Some(d) => if d == dir {
                self.n_straight + 1
            } else {
                0
            },
            None => 0,
        };
        Path { points, cost: self.cost + cost, dir: Some(dir), n_straight }
    }

    /// Whether a move in `dir` keeps to the turning rules.
    pub fn may_move(&self, dir: Direction) -> (r: bool)
        ensures
            r == self@.may_move(dir),
    {
        match self.dir {
            Some(d) => d != dir.rev() && !(d == dir && self.n_straight >= MAX_RUN - 1),
            None => true,
        }
    }

    /// Appends to `out` the extension of this path by a move in `dir`, where it is legal.
    fn push_candidate(&self, grid: &Vec<Vec<usize>>, dir: Direction, out: &mut Vec<Path>)
        requires
            grid_wf(grid@),
            self.points@.len() > 0,
            self@.last().in_bounds(width(grid@), height(grid@)),
            self.cost + MAX_CELL_COST <= usize::MAX,
            self.n_straight < usize::MAX,
        ensures
            models(final(out)@) == models(old(out)@) + candidate(self@, grid@, dir),
    {
        let height = grid.len();
        let width = grid[0].len();
        let last_point = self.last_point();
        let ghost before = models(out@);
        match last_point.step(&dir, width, height) {
            Some(next_point) => {
                if self.may_move(dir) {
                    let row = &grid[next_point.y];
                    assert(row@.len() == width);
                    let next_square = row[next_point.x];
                    let next_path = self.with_next(&next_point, next_square, dir);
                    out.push(next_path);
                    assert(models(out@) =~= before + candidate(self@, grid@, dir));
                } else {
                    assert(models(out@) =~= before + candidate(self@, grid@, dir));
                }
            },
            None => {
                assert(models(out@) =~= before + candidate(self@, grid@, dir));
            },
        }
    }

    /// The legal one-move extensions of this path: each stays on the grid, none
    /// reverses the last move, and none makes a straight run longer than `MAX_RUN`.
    pub fn get_neighbors(&self, grid: &Vec<Vec<usize>>) -> (r: Vec<Path>)
        requires
            grid_wf(grid@),
            self.points@.len() > 0,
            self@.last().in_bounds(width(grid@), height(grid@)),
            self.cost + MAX_CELL_COST <= usize::MAX,
            self.n_straight < usize::MAX,
        ensures
            models(r@) == neighbors_of(self@, grid@),
    {
        let mut neighbors: Vec<Path> = Vec::new();
        assert(models(neighbors@) =~= Seq::<PathModel>::empty());
        self.push_candidate(grid, Direction::Up, &mut neighbors);
        self.push_candidate(grid, Direction::Down, &mut neighbors);
        self.push_candidate(grid, Direction::Left, &mut neighbors);
        self.push_candidate(grid, Direction::Right, &mut neighbors);
        assert(models(neighbors@) =~= neighbors_of(self@, grid@));
        neighbors
    }
}


/// The most paths that one search expands before it gives up.
pub const MAX_EXPANSIONS: usize = 100_000_000;

/// The sum of the costs of the cells entered after the first point.
pub open spec fn route_cost(g: Seq<Vec<usize>>, pts: Seq<Point>) -> int
    decreases pts.len(),
{
    if pts.len() <= 1 {
        0
    } else {
        route_cost(g, pts.drop_last()) + cell_cost(g, pts.last())
    }
}

/// A path of the search from `start`: it starts there, stays on the grid, its cost is
/// that of the cells it entered, and its straight run is within the limit.
pub open spec fn route_ok(g: Seq<Vec<usize>>, start: Point, p: PathModel) -> bool {
    &&& p.points.len() >= 1
    &&& p.points[0] == start
    &&& forall|i: int|
        0 <= i < p.points.len() ==> (#[trigger] p.points[i]).in_bounds(width(g), height(g))
    &&& p.cost == route_cost(g, p.points)
    &&& 0 <= p.cost <= MAX_CELL_COST * (p.points.len() - 1)
    &&& 0 <= p.n_straight < MAX_RUN
}

/// The index of the first path among the first `n` of `f` with the least estimate.
pub open spec fn best_among(f: Seq<PathModel>, end: Point, n: int) -> int
    decreases n,
{
    if n <= 1 {
        0
    } else {
        let b = best_among(f, end, n - 1);
        if f[n - 1].est_total(end) < f[b].est_total(end) {
            n - 1
        } else {
            b
        }
    }
}

/// `a` stands for `q` in the frontier: it ends where `q` does and, where the frontier
/// is keyed by search state, also heads the same way with the same run.
pub open spec fn same_place(a: PathModel, q: PathModel, keyed: bool) -> bool {
    a.last() == q.last() && (keyed ==> a.dir == q.dir && a.n_straight == q.n_straight)
}

/// Some path of the frontier stands for `q` at a cost no higher.
pub open spec fn dominated(f: Seq<PathModel>, q: PathModel, keyed: bool) -> bool {
    exists|k: int| 0 <= k < f.len() && same_place(f[k], q, keyed) && f[k].cost <= q.cost
}

/// The frontier after offering it each of `ns` in turn: a path joins at the end
/// unless it is dominated.
pub open spec fn admit_all(f: Seq<PathModel>, ns: Seq<PathModel>, keyed: bool) -> Seq<PathModel>
    decreases ns.len(),
{
    if ns.len() == 0 {
        f
    } else {
        let next = if dominated(f, ns[0], keyed) {
            f
        } else {
            f.push(ns[0])
        };
        admit_all(next, ns.drop_first(), keyed)
    }
}

/// What the search returns from frontier `f` with `fuel` expansions left.
pub open spec fn search(
    g: Seq<Vec<usize>>,
    end: Point,
    f: Seq<PathModel>,
    fuel: nat,
    keyed: bool,
) -> Option<PathModel>
    decreases fuel,
{
    if fuel == 0 || f.len() == 0 {
        None
    } else {
        let b = best_among(f, end, f.len() as int);
        let p = f[b];
        if p.last() == end {
            Some(p)
        } else {
            search(g, end, admit_all(f.remove(b), neighbors_of(p, g), keyed), (fuel - 1) as nat, keyed)
        }
    }
}

/// The route that the search finds from `start` to `end`, if any; `keyed` picks the
/// frontier keyed by search state over the one keyed by cell alone.
pub open spec fn route_search(g: Seq<Vec<usize>>, start: Point, end: Point, keyed: bool) -> Option<PathModel> {
    search(g, end, seq![PathModel::at(start)], MAX_EXPANSIONS as nat, keyed)
}

/// The route that the search finds, its frontier keyed by search state (cell,
/// direction and run).
pub open spec fn best_route(g: Seq<Vec<usize>>, start: Point, end: Point) -> Option<PathModel> {
    route_search(g, start, end, true)
}

/// The route that the search finds, its frontier keyed by cell alone.
pub open spec fn best_route_by_cell(g: Seq<Vec<usize>>, start: Point, end: Point) -> Option<PathModel> {
    route_search(g, start, end, false)
}

proof fn lemma_best_among_range(f: Seq<PathModel>, end: Point, n: int)
    requires
        1 <= n,
    ensures
        0 <= best_among(f, end, n) < n,
    decreases n,
{
    if n > 1 {
        lemma_best_among_range(f, end, n - 1);
    }
}

proof fn lemma_models_remove(ps: Seq<Path>, i: int)
    requires
        0 <= i < ps.len(),
    ensures
        models(ps.remove(i)) == models(ps).remove(i),
{
    assert(models(ps.remove(i)) =~= models(ps).remove(i));
}

/// Removes from `paths` the first path with the least estimated total cost to `end`,
/// and returns it; `None` where `paths` is empty.
pub fn pop_best_path(paths: &mut Vec<Path>, end: &Point) -> (r: Option<Path>)
    requires
        forall|k: int|
            0 <= k < old(paths)@.len() ==> (#[trigger] old(paths)@[k]).points@.len() > 0
                && old(paths)@[k]@.est_total(*end) <= usize::MAX,
    ensures
        old(paths)@.len() == 0 ==> r is None && final(paths)@ == old(paths)@,
        old(paths)@.len() > 0 ==> {
            let b = best_among(models(old(paths)@), *end, old(paths)@.len() as int);
            &&& r matches Some(p) && p@ == models(old(paths)@)[b]
            &&& final(paths)@ == old(paths)@.remove(b)
        },
{
    if paths.len() == 0 {
        return None;
    }
    let ghost f = models(paths@);
    let mut best: usize = 0;
    let mut best_cost = paths[0].est_total_cost(end);
    let mut i: usize = 1;
    while i < paths.len()
        invariant
            1 <= i <= paths@.len(),
            f == models(paths@),
            forall|k: int|
                0 <= k < paths@.len() ==> (#[trigger] paths@[k]).points@.len() > 0
                    && paths@[k]@.est_total(*end) <= usize::MAX,
            best == best_among(f, *end, i as int),
            best < i,
            best_cost == f[best as int].est_total(*end),
        decreases paths@.len() - i,
    {
        let cost = paths[i].est_total_cost(end);
        if cost < best_cost {
            best = i;
            best_cost = cost;
        }
        i += 1;
    }
    let p = paths.remove(best);
    Some(p)
}

fn same_dir(a: Option<Direction>, b: Option<Direction>) -> (r: bool)
    ensures
        r == (a == b),
{
    match (a, b) {
        (Some(x), Some(y)) => x == y,
        (None, None) => true,
        _ => false,
    }
}

/// Whether some path of `paths` stands for `q` at a cost no higher.
fn is_dominated(paths: &Vec<Path>, q: &Path, keyed: bool) -> (r: bool)
    requires
        q.points@.len() > 0,
        forall|k: int| 0 <= k < paths@.len() ==> (#[trigger] paths@[k]).points@.len() > 0,
    ensures
        r == dominated(models(paths@), q@, keyed),
{
    let target = q.last_point();
    let mut i: usize = 0;
    while i < paths.len()
        invariant
            0 <= i <= paths@.len(),
            target == q@.last(),
            forall|k: int| 0 <= k < paths@.len() ==> (#[trigger] paths@[k]).points@.len() > 0,
            forall|k: int|
                0 <= k < i ==> !(same_place(models(paths@)[k], q@, keyed) && models(paths@)[k].cost
                    <= q@.cost),
        decreases paths@.len() - i,
    {
        let other = &paths[i];
        if other.last_point() == target && (!keyed || (same_dir(other.dir, q.dir)
            && other.n_straight == q.n_straight)) && other.cost <= q.cost {
            assert(models(paths@)[i as int] == other@);
            return true;
        }
        i += 1;
    }
    false
}


proof fn lemma_route_cost_push(g: Seq<Vec<usize>>, pts: Seq<Point>, q: Point)
    requires
        pts.len() >= 1,
    ensures
        route_cost(g, pts.push(q)) == route_cost(g, pts) + cell_cost(g, q),
{
    assert(pts.push(q).drop_last() =~= pts);
}

proof fn lemma_candidate_ok(g: Seq<Vec<usize>>, start: Point, p: PathModel, d: Direction)
    requires
        grid_wf(g),
        route_ok(g, start, p),
    ensures
        forall|k: int|
            0 <= k < candidate(p, g, d).len() ==> route_ok(g, start, #[trigger] candidate(p, g, d)[k])
                && candidate(p, g, d)[k].points.len() == p.points.len() + 1,
{
    let last = p.points[p.points.len() - 1];
    assert(last.in_bounds(width(g), height(g)));
    match p.last().moved(d, width(g), height(g)) {
        Some(q) => {
            if p.may_move(d) {
                let c = cell_cost(g, q);
                assert(g[q.y as int]@.len() == g[0]@.len());
                assert(c <= MAX_CELL_COST);
                let e = p.extend(q, c, d);
                lemma_route_cost_push(g, p.points, q);
                assert forall|i: int| 0 <= i < e.points.len() implies (
                #[trigger] e.points[i]).in_bounds(width(g), height(g)) by {
                    if i < p.points.len() {
                        assert(e.points[i] == p.points[i]);
                    }
                }
                assert(route_ok(g, start, e));
                assert(candidate(p, g, d) =~= seq![e]);
            }
        },
        None => {},
    }
}

proof fn lemma_neighbors_ok(g: Seq<Vec<usize>>, start: Point, p: PathModel)
    requires
        grid_wf(g),
        route_ok(g, start, p),
    ensures
        forall|k: int|
            0 <= k < neighbors_of(p, g).len() ==> route_ok(g, start, #[trigger] neighbors_of(p, g)[k])
                && neighbors_of(p, g)[k].points.len() == p.points.len() + 1,
{
    lemma_candidate_ok(g, start, p, Direction::Up);
    lemma_candidate_ok(g, start, p, Direction::Down);
    lemma_candidate_ok(g, start, p, Direction::Left);
    lemma_candidate_ok(g, start, p, Direction::Right);
    let a = candidate(p, g, Direction::Up);
    let b = candidate(p, g, Direction::Down);
    let c = candidate(p, g, Direction::Left);
    let d = candidate(p, g, Direction::Right);
    let n = neighbors_of(p, g);
    assert forall|k: int| 0 <= k < n.len() implies route_ok(g, start, #[trigger] n[k])
        && n[k].points.len() == p.points.len() + 1 by {
        if k < a.len() {
            assert(n[k] == a[k]);
        } else if k < a.len() + b.len() {
            assert(n[k] == b[k - a.len()]);
        } else if k < a.len() + b.len() + c.len() {
            assert(n[k] == c[k - a.len() - b.len()]);
        } else {
            assert(n[k] == d[k - a.len() - b.len() - c.len()]);
        }
    }
}

fn search_route(grid: &Vec<Vec<usize>>, start: &Point, end: &Point, keyed: bool) -> (r: Option<Path>)
    requires
        grid_wf(grid@),
        height(grid@) + width(grid@) <= usize::MAX / 2,
        start.in_bounds(width(grid@), height(grid@)),
        end.in_bounds(width(grid@), height(grid@)),
    ensures
        r is None <==> route_search(grid@, *start, *end, keyed) is None,
        r matches Some(p) ==> {
            &&& route_search(grid@, *start, *end, keyed) == Some(p@)
            &&& route_ok(grid@, *start, p@)
            &&& p@.last() == *end
        },
{
    let ghost g = grid@;
    let mut open_set: Vec<Path> = vec![Path::new(*start)];
    assert(models(open_set@) =~= seq![PathModel::at(*start)]);
    assert(open_set@[0]@.points =~= seq![*start]);
    assert(route_ok(g, *start, open_set@[0]@)) by {
        assert(open_set@[0]@.points.len() == 1);
    }
    assert(usize::MAX >= 0xffff_ffff);
    let mut iter: usize = 0;
    while open_set.len() > 0 && iter < MAX_EXPANSIONS
        invariant
            g == grid@,
            grid_wf(g),
            height(g) + width(g) <= usize::MAX / 2,
            start.in_bounds(width(g), height(g)),
            end.in_bounds(width(g), height(g)),
            iter <= MAX_EXPANSIONS,
            search(g, *end, models(open_set@), (MAX_EXPANSIONS - iter) as nat, keyed) == route_search(
                g,
                *start,
                *end,
                keyed,
            ),
            forall|k: int|
                0 <= k < open_set@.len() ==> route_ok(g, *start, #[trigger] open_set@[k]@)
                    && open_set@[k]@.points.len() <= iter + 1,
        decreases MAX_EXPANSIONS - iter,
    {
        let ghost before_pop = open_set@;
        let ghost f = models(open_set@);
        let ghost fuel = (MAX_EXPANSIONS - iter) as nat;
        assert forall|k: int| 0 <= k < open_set@.len() implies (
        #[trigger] open_set@[k]).points@.len() > 0 && open_set@[k]@.est_total(*end)
            <= usize::MAX by {
            let pk = open_set@[k]@;
            assert(route_ok(g, *start, pk));
            let lp = pk.points[pk.points.len() - 1];
            assert(lp.in_bounds(width(g), height(g)));
        }
        let best_path = match pop_best_path(&mut open_set, end) {
            Some(p) => p,
            None => {
                return None;
            },
        };
        let ghost b = best_among(f, *end, f.len() as int);
        proof {
            lemma_best_among_range(f, *end, f.len() as int);
            lemma_models_remove(before_pop, b);
        }
        assert(route_ok(g, *start, best_path@));
        if best_path.last_point() == *end {
            return Some(best_path);
        }
        let mut neighbors = best_path.get_neighbors(grid);
        proof {
            lemma_neighbors_ok(g, *start, best_path@);
            assert forall|k: int| 0 <= k < neighbors@.len() implies route_ok(
                g,
                *start,
                #[trigger] neighbors@[k]@,
            ) && neighbors@[k]@.points.len() <= iter + 2 by {
                assert(neighbors@[k]@ == models(neighbors@)[k]);
            }
        }
        let ghost goal = admit_all(models(open_set@), models(neighbors@), keyed);
        assert(search(g, *end, f, fuel, keyed) == search(g, *end, goal, (fuel - 1) as nat, keyed));
        while neighbors.len() > 0
            invariant
                g == grid@,
                admit_all(models(open_set@), models(neighbors@), keyed) == goal,
                forall|k: int|
                    0 <= k < open_set@.len() ==> route_ok(g, *start, #[trigger] open_set@[k]@)
                        && open_set@[k]@.points.len() <= iter + 2,
                forall|k: int|
                    0 <= k < neighbors@.len() ==> route_ok(g, *start, #[trigger] neighbors@[k]@)
                        && neighbors@[k]@.points.len() <= iter + 2,
            decreases neighbors@.len(),
        {
            let ghost before = neighbors@;
            let neighbor = neighbors.remove(0);
            proof {
                lemma_models_remove(before, 0);
                assert(models(before).remove(0) =~= models(before).drop_first());
            }
            assert(route_ok(g, *start, neighbor@)) by {
                assert(neighbor == before[0]);
            }
            assert forall|k: int| 0 <= k < open_set@.len() implies (
            #[trigger] open_set@[k]).points@.len() > 0 by {
                assert(route_ok(g, *start, open_set@[k]@));
            }
            if !is_dominated(&open_set, &neighbor, keyed) {
                let ghost prev = open_set@;
                open_set.push(neighbor);
                assert(models(open_set@) =~= models(prev).push(neighbor@));
            }
        }
        assert(models(open_set@) == goal);
        iter += 1;
    }
    None
}


/// A best-first search for a route from `start` to `end` that keeps to the turning
/// rules. The frontier is keyed by search state: a neighbour is dropped only where a
/// frontier path ends on the same cell, heading the same way with the same run, at
/// no higher cost. The result is the one `best_route` gives: a route that starts at
/// `start`, ends at `end`, stays on the grid and costs what its cells cost; or `None`
/// where the frontier empties first (or the search has expanded `MAX_EXPANSIONS`
/// paths).
pub fn find_best_route(grid: &Vec<Vec<usize>>, start: &Point, end: &Point) -> (r: Option<Path>)
    requires
        grid_wf(grid@),
        height(grid@) + width(grid@) <= usize::MAX / 2,
        start.in_bounds(width(grid@), height(grid@)),
        end.in_bounds(width(grid@), height(grid@)),
    ensures
        r is None <==> best_route(grid@, *start, *end) is None,
        r matches Some(p) ==> {
            &&& best_route(grid@, *start, *end) == Some(p@)
            &&& route_ok(grid@, *start, p@)
            &&& p@.last() == *end
        },
{
    search_route(grid, start, end, true)
}

/// The same search with its frontier keyed by cell alone: a neighbour is dropped
/// where a frontier path ends on the same cell at no higher cost, whatever its
/// direction and run. This cuts off more routes than `find_best_route`, so the route
/// it finds may cost more.
pub fn find_best_route_by_cell(grid: &Vec<Vec<usize>>, start: &Point, end: &Point) -> (r: Option<Path>)
    requires
        grid_wf(grid@),
        height(grid@) + width(grid@) <= usize::MAX / 2,
        start.in_bounds(width(grid@), height(grid@)),
        end.in_bounds(width(grid@), height(grid@)),
    ensures
        r is None <==> best_route_by_cell(grid@, *start, *end) is None,
        r matches Some(p) ==> {
            &&& best_route_by_cell(grid@, *start, *end) == Some(p@)
            &&& route_ok(grid@, *start, p@)
            &&& p@.last() == *end
        },
{
    search_route(grid, start, end, false)
}

proof fn lemma_candidate_rules(p: PathModel, g: Seq<Vec<usize>>, d: Direction)
    requires
        p.points.len() >= 1,
        p.last().in_bounds(width(g), height(g)),
    ensures
        forall|k: int|
            0 <= k < candidate(p, g, d).len() ==> {
                let q = #[trigger] candidate(p, g, d)[k];
                &&& q.last().in_bounds(width(g), height(g))
                &&& q.points.drop_last() == p.points
                &&& q.dir == Some(d)
                &&& p.may_move(d)
                &&& q.n_straight + 1 <= MAX_RUN
            },
{
    match p.last().moved(d, width(g), height(g)) {
        Some(q) => {
            if p.may_move(d) {
                let e = p.extend(q, cell_cost(g, q), d);
                assert(e.points.drop_last() =~= p.points);
                assert(candidate(p, g, d) =~= seq![e]);
            }
        },
        None => {},
    }
}

proof fn lemma_neighbor_rules(p: PathModel, g: Seq<Vec<usize>>)
    requires
        p.points.len() >= 1,
        p.last().in_bounds(width(g), height(g)),
    ensures
        forall|k: int|
            0 <= k < neighbors_of(p, g).len() ==> {
                let q = #[trigger] neighbors_of(p, g)[k];
                &&& q.last().in_bounds(width(g), height(g))
                &&& q.points.drop_last() == p.points
                &&& q.dir matches Some(d) && p.may_move(d)
                &&& q.n_straight + 1 <= MAX_RUN
            },
{
    lemma_candidate_rules(p, g, Direction::Up);
    lemma_candidate_rules(p, g, Direction::Down);
    lemma_candidate_rules(p, g, Direction::Left);
    lemma_candidate_rules(p, g, Direction::Right);
    let a = candidate(p, g, Direction::Up);
    let b = candidate(p, g, Direction::Down);
    let c = candidate(p, g, Direction::Left);
    let d = candidate(p, g, Direction::Right);
    let n = neighbors_of(p, g);
    assert forall|k: int| 0 <= k < n.len() implies {
        let q = #[trigger] n[k];
        &&& q.last().in_bounds(width(g), height(g))
        &&& q.points.drop_last() == p.points
        &&& q.dir matches Some(d) && p.may_move(d)
        &&& q.n_straight + 1 <= MAX_RUN
    } by {
        if k < a.len() {
            assert(n[k] == a[k]);
        } else if k < a.len() + b.len() {
            assert(n[k] == b[k - a.len()]);
        } else if k < a.len() + b.len() + c.len() {
            assert(n[k] == c[k - a.len() - b.len()]);
        } else {
            assert(n[k] == d[k - a.len() - b.len() - c.len()]);
        }
    }
}

/// No neighbour of a path on a rectangular grid ends off the grid; each one is the
/// path with exactly one point more.
pub proof fn lemma_neighbors_in_bounds(p: PathModel, g: Seq<Vec<usize>>)
    requires
        grid_wf(g),
        p.points.len() >= 1,
        p.last().in_bounds(width(g), height(g)),
    ensures
        forall|k: int|
            0 <= k < neighbors_of(p, g).len() ==> (#[trigger] neighbors_of(p, g)[k]).last().in_bounds(
                width(g),
                height(g),
            ) && neighbors_of(p, g)[k].points.drop_last() == p.points,
{
    lemma_neighbor_rules(p, g);
}

/// No neighbour moves in the direction opposite to the path's last move.
pub proof fn lemma_neighbors_never_reverse(p: PathModel, g: Seq<Vec<usize>>)
    requires
        p.points.len() >= 1,
        p.last().in_bounds(width(g), height(g)),
    ensures
        forall|k: int|
            0 <= k < neighbors_of(p, g).len() ==> (p.dir matches Some(d) ==> (#[trigger] neighbors_of(
                p,
                g,
            )[k]).dir != Some(d.opposite())),
{
    lemma_neighbor_rules(p, g);
    assert forall|k: int| 0 <= k < neighbors_of(p, g).len() implies (p.dir matches Some(d) ==> (
    #[trigger] neighbors_of(p, g)[k]).dir != Some(d.opposite())) by {
        let q = neighbors_of(p, g)[k];
        if let Some(d) = p.dir {
            if let Some(dq) = q.dir {
                assert(p.may_move(dq));
                if dq == d.opposite() {
                    assert(dq.opposite() == d);
                }
            }
        }
    }
}

/// No neighbour makes a straight run of more than `MAX_RUN` moves: its run length
/// (moves in its direction, less one) stays below `MAX_RUN`, and where it keeps the
/// path's direction, the path's own run was shorter than `MAX_RUN` moves less one.
pub proof fn lemma_neighbors_run_limit(p: PathModel, g: Seq<Vec<usize>>)
    requires
        p.points.len() >= 1,
        p.last().in_bounds(width(g), height(g)),
    ensures
        forall|k: int|
            0 <= k < neighbors_of(p, g).len() ==> (#[trigger] neighbors_of(p, g)[k]).n_straight + 1
                <= MAX_RUN && (neighbors_of(p, g)[k].dir == p.dir ==> p.n_straight + 2 <= MAX_RUN),
{
    lemma_neighbor_rules(p, g);
}

/// One move: the run length is 0 after a change of direction, and one more than
/// before after a move in the same direction.
pub proof fn lemma_run_length(p: PathModel, next: Point, c: int, d: Direction)
    ensures
        p.dir != Some(d) ==> p.extend(next, c, d).n_straight == 0,
        p.dir == Some(d) ==> p.extend(next, c, d).n_straight == p.n_straight + 1,
{
}

/// The path after the moves `steps` (each a point, its cost and a direction), in order.
pub open spec fn extend_all(p: PathModel, steps: Seq<(Point, int, Direction)>) -> PathModel
    decreases steps.len(),
{
    if steps.len() == 0 {
        p
    } else {
        let s = steps.last();
        extend_all(p, steps.drop_last()).extend(s.0, s.1, s.2)
    }
}

/// The sum of the costs of `steps`.
pub open spec fn steps_cost(steps: Seq<(Point, int, Direction)>) -> int
    decreases steps.len(),
{
    if steps.len() == 0 {
        0
    } else {
        steps_cost(steps.drop_last()) + steps.last().1
    }
}

/// A path built by one `extend` after another carries, as its cost, the cost it
/// started with plus the sum of the step costs, and as its points the points it
/// started with followed by those of the steps.
pub proof fn lemma_extend_cost(p: PathModel, steps: Seq<(Point, int, Direction)>)
    ensures
        extend_all(p, steps).cost == p.cost + steps_cost(steps),
        extend_all(p, steps).points == p.points + steps.map_values(
            |s: (Point, int, Direction)| s.0,
        ),
    decreases steps.len(),
{
    if steps.len() > 0 {
        lemma_extend_cost(p, steps.drop_last());
        let f = |s: (Point, int, Direction)| s.0;
        assert(steps.map_values(f) =~= steps.drop_last().map_values(f).push(steps.last().0));
    } else {
        assert(p.points + steps.map_values(|s: (Point, int, Direction)| s.0) =~= p.points);
    }
}

/// In the same direction, `k` moves after a change of direction leave a run length
/// of `k - 1`.
pub proof fn lemma_run_after_turn(p: PathModel, steps: Seq<(Point, int, Direction)>, d: Direction)
    requires
        steps.len() >= 1,
        p.dir != Some(d),
        forall|i: int| 0 <= i < steps.len() ==> (#[trigger] steps[i]).2 == d,
    ensures
        extend_all(p, steps).n_straight == steps.len() - 1,
        extend_all(p, steps).dir == Some(d),
    decreases steps.len(),
{
    assert(steps[steps.len() - 1].2 == d);
    if steps.len() > 1 {
        let init = steps.drop_last();
        assert forall|i: int| 0 <= i < init.len() implies (#[trigger] init[i]).2 == d by {
            assert(init[i] == steps[i]);
        }
        lemma_run_after_turn(p, init, d);
    } else {
        assert(steps.drop_last().len() == 0);
        assert(extend_all(p, steps.drop_last()) == p);
    }
}

/// Searching twice on the same grid between the same points gives the same route,
/// and so the same total cost.
pub proof fn lemma_search_deterministic(
    g: Seq<Vec<usize>>,
    start: Point,
    end: Point,
    keyed: bool,
    first: Option<PathModel>,
    second: Option<PathModel>,
)
    requires
        first == route_search(g, start, end, keyed),
        second == route_search(g, start, end, keyed),
    ensures
        first == second,
        first matches Some(p) ==> second matches Some(q) && p.cost == q.cost,
{
}

/// On a grid of one cell, the route from that cell to itself is the path that stands
/// there: one point, cost 0.
pub proof fn lemma_single_cell(g: Seq<Vec<usize>>, keyed: bool)
    requires
        grid_wf(g),
        height(g) == 1,
        width(g) == 1,
    ensures
        route_search(g, Point { x: 0, y: 0 }, Point { x: 0, y: 0 }, keyed) == Some(
            PathModel::at(Point { x: 0, y: 0 }),
        ),
        PathModel::at(Point { x: 0, y: 0 }).cost == 0,
        PathModel::at(Point { x: 0, y: 0 }).points.len() == 1,
{
    let o = Point { x: 0, y: 0 };
    let f = seq![PathModel::at(o)];
    assert(best_among(f, o, 1) == 0);
    assert(f[0].last() == o);
}


/// Why a grid could not be read.
#[derive(Debug, Clone, Copy, PartialEq, Eq, Structural)]
pub enum GridError {
    /// No rows, or an empty first row.
    Empty,
    /// Rows of different lengths.
    Ragged,
    /// A cell that is not a decimal digit.
    NotADigit,
}

pub open spec fn rows_rectangular(lines: Seq<String>) -> bool {
    forall|y: int| 0 <= y < lines.len() ==> (#[trigger] lines[y])@.len() == lines[0]@.len()
}

pub open spec fn all_digit_rows(lines: Seq<String>) -> bool {
    forall|y: int, x: int|
        0 <= y < lines.len() && 0 <= x < lines[y]@.len() ==> is_digit(#[trigger] lines[y]@[x])
}

/// The costs of one row of digits, or `None` where a character is not a digit.
pub fn parse_row(line: &str) -> (r: Option<Vec<usize>>)
    ensures
        r is Some <==> forall|x: int| 0 <= x < line@.len() ==> is_digit(#[trigger] line@[x]),
        r matches Some(row) ==> row@.len() == line@.len() && forall|x: int|
            0 <= x < line@.len() ==> row@[x] == digit_value(#[trigger] line@[x]),
{
    let n = line.unicode_len();
    let mut row: Vec<usize> = Vec::new();
    let mut i: usize = 0;
    while i < n
        invariant
            n == line@.len(),
            i <= n,
            row@.len() == i,
            forall|x: int| 0 <= x < i ==> is_digit(#[trigger] line@[x]),
            forall|x: int| 0 <= x < i ==> row@[x] == digit_value(#[trigger] line@[x]),
        decreases n - i,
    {
        let c = line.get_char(i);
        if c < '0' || c > '9' {
            return None;
        }
        row.push(((c as u32) - ('0' as u32)) as usize);
        i += 1;
    }
    Some(row)
}

/// Reads a grid of single-digit costs, one row per line.
pub fn parse_grid(lines: &Vec<String>) -> (r: Result<Vec<Vec<usize>>, GridError>)
    ensures
        r == Err::<Vec<Vec<usize>>, GridError>(GridError::Empty) <==> (lines@.len() == 0
            || lines@[0]@.len() == 0),
        r == Err::<Vec<Vec<usize>>, GridError>(GridError::Ragged) <==> (lines@.len() > 0
            && lines@[0]@.len() > 0 && !rows_rectangular(lines@)),
        r == Err::<Vec<Vec<usize>>, GridError>(GridError::NotADigit) <==> (lines@.len() > 0
            && lines@[0]@.len() > 0 && rows_rectangular(lines@) && !all_digit_rows(lines@)),
        r matches Ok(g) ==> {
            &&& grid_wf(g@)
            &&& g@.len() == lines@.len()
            &&& forall|y: int| 0 <= y < g@.len() ==> (#[trigger] g@[y])@.len() == lines@[y]@.len()
            &&& forall|y: int, x: int|
                0 <= y < g@.len() && 0 <= x < lines@[y]@.len() ==> (#[trigger] g@[y]@[x])
                    == digit_value(lines@[y]@[x])
        },
{
    if lines.len() == 0 {
        return Err(GridError::Empty);
    }
    let w = lines[0].as_str().unicode_len();
    if w == 0 {
        return Err(GridError::Empty);
    }
    let mut y: usize = 0;
    while y < lines.len()
        invariant
            y <= lines@.len(),
            w == lines@[0]@.len(),
            w > 0,
            forall|k: int| 0 <= k < y ==> (#[trigger] lines@[k])@.len() == w,
        decreases lines@.len() - y,
    {
        if lines[y].as_str().unicode_len() != w {
            assert(lines@[y as int]@.len() != lines@[0]@.len());
            return Err(GridError::Ragged);
        }
        y += 1;
    }
    let mut grid: Vec<Vec<usize>> = Vec::new();
    y = 0;
    while y < lines.len()
        invariant
            y <= lines@.len(),
            w == lines@[0]@.len(),
            w > 0,
            rows_rectangular(lines@),
            grid@.len() == y,
            forall|k: int| 0 <= k < y ==> (#[trigger] grid@[k])@.len() == w,
            forall|k: int, x: int|
                0 <= k < y && 0 <= x < w ==> is_digit(#[trigger] lines@[k]@[x]),
            forall|k: int, x: int|
                0 <= k < y && 0 <= x < w ==> (#[trigger] grid@[k]@[x]) == digit_value(
                    lines@[k]@[x],
                ),
        decreases lines@.len() - y,
    {
        assert(lines@[y as int]@.len() == w);
        match parse_row(lines[y].as_str()) {
            Some(row) => {
                grid.push(row);
            },
            None => {
                return Err(GridError::NotADigit);
            },
        }
        y += 1;
    }
    assert forall|k: int, x: int|
        0 <= k < grid@.len() && 0 <= x < grid@[0]@.len() implies #[trigger] grid@[k]@[x]
        <= MAX_CELL_COST by {
        assert(is_digit(lines@[k]@[x]));
    }
    Ok(grid)
}

} // verus!
