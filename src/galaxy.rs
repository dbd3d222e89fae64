use vstd::prelude::*;
use std::cmp::Ordering;
use crate::text::chars_of;

verus! {

/// A galaxy's position: column `x`, row `y`.
#[derive(Debug, Hash, Eq, PartialEq, Clone, Copy, Structural)]
pub struct Point {
    pub x: u64,
    pub y: u64,
}

pub open spec fn gap(a: int, b: int) -> int {
    if a > b {
        a - b
    } else {
        b - a
    }
}

/// Row-major order: by row, then by column.
pub open spec fn point_cmp(a: Point, b: Point) -> Ordering {
    if a.y < b.y {
        Ordering::Less
    } else if a.y > b.y {
        Ordering::Greater
    } else if a.x < b.x {
        Ordering::Less
    } else if a.x > b.x {
        Ordering::Greater
    } else {
        Ordering::Equal
    }
}

impl Point {
    pub fn new(x: u64, y: u64) -> (r: Point)
        ensures
            r == (Point { x, y }),
    {
        Point { x, y }
    }

    pub fn newu(x: usize, y: usize) -> (r: Point)
        requires
            x <= u64::MAX,
            y <= u64::MAX,
        ensures
            r == (Point { x: x as u64, y: y as u64 }),
    {
        Point::new(x as u64, y as u64)
    }

    pub open spec fn manhattan(self, other: Point) -> int {
        gap(self.x as int, other.x as int) + gap(self.y as int, other.y as int)
    }

    /// Steps between the galaxies, moving along rows and columns.
    pub fn dist(&self, other: &Point) -> (r: u64)
        requires
            self.manhattan(*other) <= u64::MAX,
        ensures
            r == self.manhattan(*other),
    {
        let dx = if self.x > other.x {
            self.x - other.x
        } else {
            other.x - self.x
        };
        let dy = if self.y > other.y {
            self.y - other.y
        } else {
            other.y - self.y
        };
        dx + dy
    }
}

impl PartialOrd for Point {
    fn partial_cmp(&self, other: &Point) -> (r: Option<Ordering>)
        ensures
            r == Some(point_cmp(*self, *other)),
    {
        if self.y < other.y {
            Some(Ordering::Less)
        } else if self.y > other.y {
            Some(Ordering::Greater)
        } else if self.x < other.x {
            Some(Ordering::Less)
        } else if self.x > other.x {
            Some(Ordering::Greater)
        } else {
            Some(Ordering::Equal)
        }
    }
}

impl vstd::std_specs::cmp::PartialOrdSpecImpl for Point {
    open spec fn obeys_partial_cmp_spec() -> bool {
        true
    }

    open spec fn partial_cmp_spec(&self, other: &Point) -> Option<Ordering> {
        Some(point_cmp(*self, *other))
    }
}


/// The galaxies of one row, left to right.
pub open spec fn row_galaxies(row: Seq<char>, y: int) -> Seq<Point>
    decreases row.len(),
{
    if row.len() == 0 {
        seq![]
    } else {
        let rest = row_galaxies(row.drop_last(), y);
        if row.last() == '#' {
            rest.push(Point { x: (row.len() - 1) as u64, y: y as u64 })
        } else {
            rest
        }
    }
}

/// The galaxies of the image, row by row.
pub open spec fn galaxies(rows: Seq<Seq<char>>) -> Seq<Point>
    decreases rows.len(),
{
    if rows.len() == 0 {
        seq![]
    } else {
        galaxies(rows.drop_last()) + row_galaxies(rows.last(), rows.len() - 1)
    }
}

pub open spec fn is_galaxy(rows: Seq<Seq<char>>, x: int, y: int) -> bool {
    0 <= y < rows.len() && 0 <= x < rows[y].len() && rows[y][x] == '#'
}

/// The image's width: the length of its first row.
pub open spec fn image_width(rows: Seq<Seq<char>>) -> int {
    if rows.len() == 0 {
        0
    } else {
        rows[0].len() as int
    }
}

/// Row `y` holds no galaxy within the image's width.
pub open spec fn row_empty(rows: Seq<Seq<char>>, y: int) -> bool {
    forall|x: int| 0 <= x < image_width(rows) ==> !#[trigger] is_galaxy(rows, x, y)
}

/// Column `x` holds no galaxy.
pub open spec fn col_empty(rows: Seq<Seq<char>>, x: int) -> bool {
    forall|y: int| 0 <= y < rows.len() ==> !#[trigger] is_galaxy(rows, x, y)
}

/// How many empty rows lie above row `y`.
pub open spec fn empty_rows_before(rows: Seq<Seq<char>>, y: int) -> int
    decreases y,
{
    if y <= 0 {
        0
    } else {
        empty_rows_before(rows, y - 1) + if y - 1 < rows.len() && row_empty(rows, y - 1) {
            1int
        } else {
            0int
        }
    }
}

/// How many empty columns within the image's width lie left of column `x`.
pub open spec fn empty_cols_before(rows: Seq<Seq<char>>, x: int) -> int
    decreases x,
{
    if x <= 0 {
        0
    } else {
        empty_cols_before(rows, x - 1) + if x - 1 < image_width(rows) && col_empty(rows, x - 1) {
            1int
        } else {
            0int
        }
    }
}

/// Where a galaxy ends up once each empty row and column counts `factor` times.
pub open spec fn expanded(rows: Seq<Seq<char>>, p: Point, factor: int) -> (int, int) {
    (
        p.x + (factor - 1) * empty_cols_before(rows, p.x as int),
        p.y + (factor - 1) * empty_rows_before(rows, p.y as int),
    )
}

pub open spec fn spread(a: (int, int), b: (int, int)) -> int {
    gap(a.0, b.0) + gap(a.1, b.1)
}

/// The sum of the distances from the first `n` of `ps` to `q`.
pub open spec fn dists_to(ps: Seq<(int, int)>, q: (int, int), n: int) -> int
    decreases n,
{
    if n <= 0 {
        0
    } else {
        dists_to(ps, q, n - 1) + spread(ps[n - 1], q)
    }
}

/// The sum of the distances between each two of the first `n` of `ps`.
pub open spec fn pair_total(ps: Seq<(int, int)>, n: int) -> int
    decreases n,
{
    if n <= 0 {
        0
    } else {
        pair_total(ps, n - 1) + dists_to(ps, ps[n - 1], n - 1)
    }
}

pub open spec fn expanded_all(rows: Seq<Seq<char>>, factor: int) -> Seq<(int, int)> {
    galaxies(rows).map_values(|p: Point| expanded(rows, p, factor))
}


pub open spec fn rows_of(lines: Seq<String>) -> Seq<Seq<char>> {
    lines.map_values(|l: String| l@)
}

/// Every expanded galaxy has coordinates in `u64`.
pub open spec fn coords_fit(rows: Seq<Seq<char>>, factor: int) -> bool {
    forall|i: int|
        0 <= i < galaxies(rows).len() ==> #[trigger] expanded(rows, galaxies(rows)[i], factor).0
            <= u64::MAX && expanded(rows, galaxies(rows)[i], factor).1 <= u64::MAX
}

proof fn lemma_dists_to_nonneg(ps: Seq<(int, int)>, q: (int, int), n: int)
    ensures
        dists_to(ps, q, n) >= 0,
    decreases n,
{
    if n > 0 {
        lemma_dists_to_nonneg(ps, q, n - 1);
    }
}

proof fn lemma_dists_to_grows(ps: Seq<(int, int)>, q: (int, int), i: int, j: int)
    requires
        0 <= i <= j,
    ensures
        0 <= dists_to(ps, q, i) <= dists_to(ps, q, j),
    decreases j,
{
    if i < j {
        lemma_dists_to_grows(ps, q, i, j - 1);
    } else {
        lemma_dists_to_nonneg(ps, q, i);
    }
}

proof fn lemma_pair_total_nonneg(ps: Seq<(int, int)>, n: int)
    ensures
        pair_total(ps, n) >= 0,
    decreases n,
{
    if n > 0 {
        lemma_pair_total_nonneg(ps, n - 1);
        lemma_dists_to_nonneg(ps, ps[n - 1], n - 1);
    }
}

proof fn lemma_pair_total_grows(ps: Seq<(int, int)>, i: int, j: int)
    requires
        0 <= i <= j,
    ensures
        0 <= pair_total(ps, i) <= pair_total(ps, j),
    decreases j,
{
    if i < j {
        lemma_pair_total_grows(ps, i, j - 1);
        lemma_dists_to_nonneg(ps, ps[j - 1], j - 1);
    } else {
        lemma_pair_total_nonneg(ps, i);
    }
}

/// The galaxies of the image, row by row.
fn find_galaxies(rows: &Vec<Vec<char>>) -> (r: Vec<Point>)
    ensures
        r@ == galaxies(rows@.map_values(|v: Vec<char>| v@)),
{
    let ghost rs = rows@.map_values(|v: Vec<char>| v@);
    let mut found: Vec<Point> = Vec::new();
    let mut y: usize = 0;
    while y < rows.len()
        invariant
            rs == rows@.map_values(|v: Vec<char>| v@),
            y <= rows@.len(),
            found@ == galaxies(rs.take(y as int)),
        decreases rows@.len() - y,
    {
        let row = &rows[y];
        let ghost before = found@;
        let mut x: usize = 0;
        while x < row.len()
            invariant
                y < rows@.len(),
                row@ == rs[y as int],
                x <= row@.len(),
                found@ == before + row_galaxies(row@.take(x as int), y as int),
            decreases row@.len() - x,
        {
            assert(row@.take(x + 1).drop_last() =~= row@.take(x as int));
            if row[x] == '#' {
                found.push(Point::new(x as u64, y as u64));
                assert(before + row_galaxies(row@.take(x + 1), y as int) =~= (before + row_galaxies(
                    row@.take(x as int),
                    y as int,
                )).push(Point { x: x as u64, y: y as u64 }));
            }
            x += 1;
        }
        assert(row@.take(x as int) =~= row@);
        assert(rs.take(y + 1).drop_last() =~= rs.take(y as int));
        y += 1;
    }
    assert(rs.take(y as int) =~= rs);
    found
}

fn galaxy_at(rows: &Vec<Vec<char>>, x: usize, y: usize) -> (r: bool)
    requires
        y < rows@.len(),
    ensures
        r == is_galaxy(rows@.map_values(|v: Vec<char>| v@), x as int, y as int),
{
    let row = &rows[y];
    x < row.len() && row[x] == '#'
}

/// The sum, over each two galaxies, of the steps between them once each empty row
/// and column counts `factor` times; `None` where an expanded position or the sum
/// leaves `u64`.
pub fn expanded_distance_total(lines: &Vec<String>, factor: u64) -> (r: Option<u64>)
    requires
        factor >= 1,
    ensures
        ({
            let rows = rows_of(lines@);
            let ea = expanded_all(rows, factor as int);
            &&& r is Some <==> coords_fit(rows, factor as int) && pair_total(ea, ea.len() as int)
                <= u64::MAX
            &&& r matches Some(t) ==> t == pair_total(ea, ea.len() as int)
        }),
{
    let ghost rs = rows_of(lines@);
    let mut rows: Vec<Vec<char>> = Vec::new();
    let mut k: usize = 0;
    while k < lines.len()
        invariant
            k <= lines@.len(),
            rows@.map_values(|v: Vec<char>| v@) == rs.take(k as int),
            rs == rows_of(lines@),
            forall|t: int| 0 <= t < k ==> (#[trigger] rs[t]).len() <= usize::MAX,
        decreases lines@.len() - k,
    {
        let ghost before = rows@;
        let cs = chars_of(lines[k].as_str());
        let m = cs.len();
        assert(rs[k as int] == lines@[k as int]@);
        assert(rs[k as int].len() == m);
        rows.push(cs);
        assert(rows@.map_values(|v: Vec<char>| v@) =~= rs.take(k as int).push(cs@));
        assert(rs.take(k + 1) =~= rs.take(k as int).push(rs[k as int]));
        k += 1;
    }
    assert(rs.take(k as int) =~= rs);
    assert(forall|t: int| 0 <= t < rs.len() ==> (#[trigger] rs[t]).len() <= usize::MAX);
    let height = rows.len();
    let width: usize = if height == 0 { 0 } else { rows[0].len() };
    assert(width == image_width(rs));
    // Empty rows above each row, and empty columns left of each column.
    let mut rows_before: Vec<u64> = Vec::new();
    let mut count: u64 = 0;
    let mut y: usize = 0;
    while y < height
        invariant
            rows@.map_values(|v: Vec<char>| v@) == rs,
            height == rs.len(),
            width == image_width(rs),
            y <= height,
            rows_before@.len() == y,
            count == empty_rows_before(rs, y as int),
            count <= y,
            forall|t: int| 0 <= t < y ==> rows_before@[t] == empty_rows_before(rs, t),
        decreases height - y,
    {
        rows_before.push(count);
        let mut x: usize = 0;
        let mut empty = true;
        while x < width
            invariant
                rows@.map_values(|v: Vec<char>| v@) == rs,
                width == image_width(rs),
                y < rs.len(),
                x <= width,
                empty == forall|c: int| 0 <= c < x ==> !#[trigger] is_galaxy(rs, c, y as int),
            decreases width - x,
        {
            if galaxy_at(&rows, x, y) {
                empty = false;
            }
            x += 1;
        }
        if empty {
            count += 1;
        }
        y += 1;
    }
    let mut cols_before: Vec<u64> = Vec::new();
    count = 0;
    let mut x: usize = 0;
    while x < width
        invariant
            rows@.map_values(|v: Vec<char>| v@) == rs,
            height == rs.len(),
            width == image_width(rs),
            x <= width,
            cols_before@.len() == x,
            count == empty_cols_before(rs, x as int),
            count <= x,
            forall|t: int| 0 <= t < x ==> cols_before@[t] == empty_cols_before(rs, t),
        decreases width - x,
    {
        cols_before.push(count);
        let mut y2: usize = 0;
        let mut empty = true;
        while y2 < height
            invariant
                rows@.map_values(|v: Vec<char>| v@) == rs,
                height == rs.len(),
                x < width,
                y2 <= height,
                empty == forall|r: int| 0 <= r < y2 ==> !#[trigger] is_galaxy(rs, x as int, r),
            decreases height - y2,
        {
            if galaxy_at(&rows, x, y2) {
                empty = false;
            }
            y2 += 1;
        }
        if empty {
            count += 1;
        }
        x += 1;
    }
    let cols_total = count;
    assert(cols_total == empty_cols_before(rs, width as int));
    // Galaxies and where they end up.
    let gs = find_galaxies(&rows);
    let ghost ea = expanded_all(rs, factor as int);
    let mut places: Vec<(u64, u64)> = Vec::new();
    let mut i: usize = 0;
    assert(usize::MAX <= u64::MAX);
    proof {
        assert forall|t: int| 0 <= t < rs.len() implies (#[trigger] rs[t]).len() <= u64::MAX by {
            assert(rs[t].len() <= usize::MAX);
        }
        lemma_galaxies_in(rs);
    }
    while i < gs.len()
        invariant
            rs == rows_of(lines@),
            gs@ == galaxies(rs),
            ea == expanded_all(rs, factor as int),
            ea.len() == gs@.len(),
            rows@.map_values(|v: Vec<char>| v@) == rs,
            height == rs.len(),
            width == image_width(rs),
            rows_before@.len() == height,
            forall|t: int| 0 <= t < height ==> rows_before@[t] == empty_rows_before(rs, t),
            cols_before@.len() == width,
            forall|t: int| 0 <= t < width ==> cols_before@[t] == empty_cols_before(rs, t),
            cols_total == empty_cols_before(rs, width as int),
            forall|t: int| 0 <= t < gs@.len() ==> (#[trigger] gs@[t]).y < rs.len() && gs@[t].x < rs[gs@[t].y as int].len(),
            forall|t: int| 0 <= t < rs.len() ==> (#[trigger] rs[t]).len() <= usize::MAX,
            factor >= 1,
            i <= gs@.len(),
            places@.len() == i,
            forall|t: int| 0 <= t < i ==> (places@[t].0 as int, places@[t].1 as int) == #[trigger] ea[t],
            forall|t: int| 0 <= t < i ==> #[trigger] expanded(rs, galaxies(rs)[t], factor as int).0 <= u64::MAX && expanded(rs, galaxies(rs)[t], factor as int).1 <= u64::MAX,
        decreases gs@.len() - i,
    {
        let p = gs[i];
        assert(gs@[i as int] == p);
        assert(p.x < rs[p.y as int].len());
        let py = p.y as usize;
        let px = p.x as usize;
        assert(px as int == p.x as int && py as int == p.y as int);
        let ry = rows_before[py];
        let cx = if px < width {
            cols_before[px]
        } else {
            proof {
                lemma_cols_beyond(rs, px as int);
            }
            cols_total
        };
        let ghost e = expanded(rs, p, factor as int);
        assert(ea[i as int] == e);
        assert(ry as int == empty_rows_before(rs, p.y as int));
        assert(cx as int == empty_cols_before(rs, p.x as int));
        let nx = match (factor - 1).checked_mul(cx) {
            Some(m) => m.checked_add(p.x),
            None => None,
        };
        let ny = match (factor - 1).checked_mul(ry) {
            Some(m) => m.checked_add(p.y),
            None => None,
        };
        match (nx, ny) {
            (Some(a), Some(b)) => {
                places.push((a, b));
            },
            _ => {
                assert(!coords_fit(rs, factor as int)) by {
                    assert(e.0 > u64::MAX || e.1 > u64::MAX);
                    assert(galaxies(rs)[i as int] == p);
                    assert(!(expanded(rs, galaxies(rs)[i as int], factor as int).0 <= u64::MAX
                        && expanded(rs, galaxies(rs)[i as int], factor as int).1 <= u64::MAX));
                }
                return None;
            },
        }
        i += 1;
    }
    let n = places.len();
    assert(coords_fit(rs, factor as int));
    let mut total: u64 = 0;
    let mut j: usize = 0;
    while j < n
        invariant
            rs == rows_of(lines@),
            ea == expanded_all(rs, factor as int),
            coords_fit(rs, factor as int),
            n == places@.len(),
            n == ea.len(),
            forall|t: int| 0 <= t < n ==> (places@[t].0 as int, places@[t].1 as int) == #[trigger] ea[t],
            j <= n,
            total == pair_total(ea, j as int),
        decreases n - j,
    {
        let q = places[j];
        assert((q.0 as int, q.1 as int) == ea[j as int]);
        let mut i2: usize = 0;
        let mut sum: u64 = total;
        while i2 < j
            invariant
                rs == rows_of(lines@),
                ea == expanded_all(rs, factor as int),
                coords_fit(rs, factor as int),
                n == places@.len(),
                n == ea.len(),
                forall|t: int| 0 <= t < n ==> (places@[t].0 as int, places@[t].1 as int) == #[trigger] ea[t],
                j < n,
                (q.0 as int, q.1 as int) == ea[j as int],
                i2 <= j,
                sum == pair_total(ea, j as int) + dists_to(ea, ea[j as int], i2 as int),
            decreases j - i2,
        {
            let o = places[i2];
            assert((o.0 as int, o.1 as int) == ea[i2 as int]);
            let dx = if o.0 > q.0 { o.0 - q.0 } else { q.0 - o.0 };
            let dy = if o.1 > q.1 { o.1 - q.1 } else { q.1 - o.1 };
            let step = match dx.checked_add(dy) {
                Some(d) => sum.checked_add(d),
                None => None,
            };
            match step {
                Some(v) => {
                    sum = v;
                },
                None => {
                    proof {
                        assert(spread(ea[i2 as int], ea[j as int]) == dx + dy);
                        assert(dists_to(ea, ea[j as int], i2 + 1) == dists_to(ea, ea[j as int], i2 as int) + dx + dy);
                        assert(pair_total(ea, j + 1) == pair_total(ea, j as int) + dists_to(ea, ea[j as int], j as int));
                        lemma_dists_to_grows(ea, ea[j as int], 0, i2 as int);
                        lemma_dists_to_grows(ea, ea[j as int], i2 + 1, j as int);
                        lemma_pair_total_grows(ea, j + 1, n as int);
                        lemma_pair_total_grows(ea, 0, j as int);
                    }
                    return None;
                },
            }
            i2 += 1;
        }
        total = sum;
        j += 1;
    }
    Some(total)
}

proof fn lemma_row_galaxies_in(row: Seq<char>, y: int)
    requires
        row.len() <= u64::MAX,
        0 <= y <= u64::MAX,
    ensures
        forall|t: int| 0 <= t < row_galaxies(row, y).len() ==> (#[trigger] row_galaxies(row, y)[t]).y == y as u64
            && row_galaxies(row, y)[t].x < row.len(),
    decreases row.len(),
{
    if row.len() > 0 {
        lemma_row_galaxies_in(row.drop_last(), y);
        let rest = row_galaxies(row.drop_last(), y);
        assert forall|t: int| 0 <= t < row_galaxies(row, y).len() implies (#[trigger] row_galaxies(row, y)[t]).y == y as u64
            && row_galaxies(row, y)[t].x < row.len() by {
            if t < rest.len() {
                assert(row_galaxies(row, y)[t] == rest[t]);
            }
        }
    }
}

proof fn lemma_galaxies_in(rs: Seq<Seq<char>>)
    requires
        rs.len() <= u64::MAX,
        forall|t: int| 0 <= t < rs.len() ==> (#[trigger] rs[t]).len() <= u64::MAX,
    ensures
        forall|t: int| 0 <= t < galaxies(rs).len() ==> (#[trigger] galaxies(rs)[t]).y < rs.len()
            && galaxies(rs)[t].x < rs[galaxies(rs)[t].y as int].len(),
    decreases rs.len(),
{
    if rs.len() > 0 {
        let init = rs.drop_last();
        lemma_galaxies_in(init);
        lemma_row_galaxies_in(rs.last(), rs.len() - 1);
        let a = galaxies(init);
        let b = row_galaxies(rs.last(), rs.len() - 1);
        assert forall|t: int| 0 <= t < galaxies(rs).len() implies (#[trigger] galaxies(rs)[t]).y < rs.len()
            && galaxies(rs)[t].x < rs[galaxies(rs)[t].y as int].len() by {
            if t < a.len() {
                assert(galaxies(rs)[t] == a[t]);
                assert(rs[a[t].y as int] == init[a[t].y as int]);
            } else {
                assert(galaxies(rs)[t] == b[t - a.len()]);
            }
        }
    }
}

proof fn lemma_cols_beyond(rs: Seq<Seq<char>>, x: int)
    requires
        x >= image_width(rs),
        image_width(rs) >= 0,
    ensures
        empty_cols_before(rs, x) == empty_cols_before(rs, image_width(rs)),
    decreases x,
{
    if x > image_width(rs) {
        lemma_cols_beyond(rs, x - 1);
    }
}

} // verus!
