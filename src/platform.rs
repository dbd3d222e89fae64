use vstd::prelude::*;
use crate::text::chars_of;

verus! {

#[derive(Debug, Clone, Copy, PartialEq, Eq, Structural)]
pub enum Space {
    /// `O`: rolls when the platform tilts.
    RoundRock,
    /// `#`: stays put.
    SquareRock,
    /// `.`
    Empty,
}

/// A character that names no space.
#[derive(Debug, Clone, Copy, PartialEq, Eq, Structural)]
pub struct UnknownSpace {
    pub c: char,
}

impl Space {
    pub open spec fn of_char(c: char) -> Option<Space> {
        if c == '.' {
            Some(Space::Empty)
        } else if c == 'O' {
            Some(Space::RoundRock)
        } else if c == '#' {
            Some(Space::SquareRock)
        } else {
            None
        }
    }

    pub fn try_from(c: char) -> (r: Result<Space, UnknownSpace>)
        ensures
            match Space::of_char(c) {
                Some(s) => r == Ok::<Space, UnknownSpace>(s),
                None => r == Err::<Space, UnknownSpace>(UnknownSpace { c }),
            },
    {
        match c {
            '.' => Ok(Space::Empty),
            'O' => Ok(Space::RoundRock),
            '#' => Ok(Space::SquareRock),
            _ => Err(UnknownSpace { c }),
        }
    }
}

/// The platform, row by row from the north edge.
#[derive(Debug, Clone, PartialEq, Eq)]
pub struct Grid {
    pub spaces: Vec<Vec<Space>>,
}

pub open spec fn rows_of(v: Seq<Vec<Space>>) -> Seq<Seq<Space>> {
    v.map_values(|r: Vec<Space>| r@)
}

/// Row `i` after its round rocks that have open space just north of them moved there.
pub open spec fn lift_row(g: Seq<Seq<Space>>, i: int) -> Seq<Seq<Space>> {
    let moves = |j: int|
        g[i][j] == Space::RoundRock && j < g[i - 1].len() && g[i - 1][j] == Space::Empty;
    g.update(
        i - 1,
        Seq::new(g[i - 1].len(), |j: int| if j < g[i].len() && moves(j) { Space::RoundRock } else { g[i - 1][j] }),
    ).update(i, Seq::new(g[i].len(), |j: int| if moves(j) { Space::Empty } else { g[i][j] }))
}

/// Some round rock of row `i` has open space just north of it.
pub open spec fn row_can_move(g: Seq<Seq<Space>>, i: int) -> bool {
    exists|j: int|
        0 <= j < g[i].len() && #[trigger] g[i][j] == Space::RoundRock && j < g[i - 1].len() && g[i
            - 1][j] == Space::Empty
}

/// One northward pass from row `i` on: each row in turn lifts its movable rocks
/// by one.
pub open spec fn pass_from(g: Seq<Seq<Space>>, i: int) -> (Seq<Seq<Space>>, bool)
    decreases g.len() - i,
{
    if i < 1 || i >= g.len() {
        (g, false)
    } else {
        let (h, moved) = pass_from(lift_row(g, i), i + 1);
        (h, moved || row_can_move(g, i))
    }
}

pub open spec fn count_round(row: Seq<Space>) -> int
    decreases row.len(),
{
    if row.len() == 0 {
        0
    } else {
        count_round(row.drop_last()) + if row.last() == Space::RoundRock {
            1int
        } else {
            0int
        }
    }
}

/// The load on the north beams: each round rock weighs as many as the rows from
/// it to the south edge, its own included.
pub open spec fn load_of(g: Seq<Seq<Space>>, n: int) -> int
    decreases n,
{
    if n <= 0 {
        0
    } else {
        load_of(g, n - 1) + (g.len() - (n - 1)) * count_round(g[n - 1])
    }
}

proof fn lemma_count_round_bound(row: Seq<Space>)
    ensures
        0 <= count_round(row) <= row.len(),
    decreases row.len(),
{
    if row.len() > 0 {
        lemma_count_round_bound(row.drop_last());
    }
}

proof fn lemma_load_grows(g: Seq<Seq<Space>>, i: int, j: int)
    requires
        0 <= i <= j <= g.len(),
    ensures
        0 <= load_of(g, i) <= load_of(g, j),
    decreases j,
{
    if i < j {
        lemma_load_grows(g, i, j - 1);
        lemma_count_round_bound(g[j - 1]);
        assert((g.len() - (j - 1)) * count_round(g[j - 1]) >= 0) by (nonlinear_arith)
            requires
                g.len() - (j - 1) >= 0,
                count_round(g[j - 1]) >= 0,
        ;
    } else {
        lemma_load_nonneg(g, i);
    }
}

proof fn lemma_load_nonneg(g: Seq<Seq<Space>>, n: int)
    requires
        0 <= n <= g.len(),
    ensures
        load_of(g, n) >= 0,
    decreases n,
{
    if n > 0 {
        lemma_load_nonneg(g, n - 1);
        lemma_count_round_bound(g[n - 1]);
        assert((g.len() - (n - 1)) * count_round(g[n - 1]) >= 0) by (nonlinear_arith)
            requires
                g.len() - (n - 1) >= 0,
                count_round(g[n - 1]) >= 0,
        ;
    }
}

proof fn lemma_lift_local(g: Seq<Seq<Space>>, i: int)
    requires
        1 <= i < g.len(),
    ensures
        ({
            let p = seq![g[i - 1], g[i]];
            let h = lift_row(p, 1);
            &&& lift_row(g, i) == g.update(i - 1, h[0]).update(i, h[1])
            &&& row_can_move(g, i) == row_can_move(p, 1)
        }),
{
    let p = seq![g[i - 1], g[i]];
    let h = lift_row(p, 1);
    assert(lift_row(g, i) =~= g.update(i - 1, h[0]).update(i, h[1]));
}

/// The round rock at column `j` of row `i` has open space just north of it.
pub open spec fn moved_at(g: Seq<Seq<Space>>, i: int, j: int) -> bool {
    0 <= j < g[i].len() && g[i][j] == Space::RoundRock && j < g[i - 1].len() && g[i - 1][j]
        == Space::Empty
}

/// How many rocks of row `i` below the first `n` columns move north.
pub open spec fn moves_count(g: Seq<Seq<Space>>, i: int, n: int) -> int
    decreases n,
{
    if n <= 0 {
        0
    } else {
        moves_count(g, i, n - 1) + if moved_at(g, i, n - 1) {
            1int
        } else {
            0int
        }
    }
}

/// The sum, over round rocks, of their row numbers: each move north lowers it.
pub open spec fn weight(g: Seq<Seq<Space>>) -> int
    decreases g.len(),
{
    if g.len() == 0 {
        0
    } else {
        weight(g.drop_last()) + (g.len() - 1) * count_round(g.last())
    }
}

proof fn lemma_weight_nonneg(g: Seq<Seq<Space>>)
    ensures
        weight(g) >= 0,
    decreases g.len(),
{
    if g.len() > 0 {
        lemma_weight_nonneg(g.drop_last());
        lemma_count_round_bound(g.last());
        assert((g.len() - 1) * count_round(g.last()) >= 0) by (nonlinear_arith)
            requires
                g.len() >= 1,
                count_round(g.last()) >= 0,
        ;
    }
}

proof fn lemma_weight_update(g: Seq<Seq<Space>>, k: int, r: Seq<Space>)
    requires
        0 <= k < g.len(),
    ensures
        weight(g.update(k, r)) == weight(g) + k * (count_round(r) - count_round(g[k])),
    decreases g.len(),
{
    let h = g.update(k, r);
    if k == g.len() - 1 {
        assert(h.drop_last() =~= g.drop_last());
    } else {
        lemma_weight_update(g.drop_last(), k, r);
        assert(h.drop_last() =~= g.drop_last().update(k, r));
    }
    assert(k * (count_round(r) - count_round(g[k])) == k * count_round(r) - k * count_round(g[k])) by (nonlinear_arith);
    assert((g.len() - 1) * count_round(r) - (g.len() - 1) * count_round(g[k]) == (g.len() - 1) * (count_round(r) - count_round(g[k]))) by (nonlinear_arith);
}

proof fn lemma_moves_stable(g: Seq<Seq<Space>>, i: int, n: int)
    requires
        1 <= i < g.len(),
        n >= g[i].len() || n >= g[i - 1].len(),
        n >= 0,
    ensures
        moves_count(g, i, n) == moves_count(g, i, if g[i].len() < g[i - 1].len() { g[i].len() as int } else { g[i - 1].len() as int }),
    decreases n,
{
    let m = if g[i].len() < g[i - 1].len() { g[i].len() as int } else { g[i - 1].len() as int };
    if n > m {
        assert(!moved_at(g, i, n - 1));
        lemma_moves_stable(g, i, n - 1);
    }
}

proof fn lemma_count_above(g: Seq<Seq<Space>>, i: int, n: int)
    requires
        1 <= i < g.len(),
        0 <= n <= g[i - 1].len(),
    ensures
        count_round(lift_row(g, i)[i - 1].take(n)) == count_round(g[i - 1].take(n)) + moves_count(g, i, n),
    decreases n,
{
    let a = lift_row(g, i)[i - 1];
    if n > 0 {
        lemma_count_above(g, i, n - 1);
        assert(a.take(n).drop_last() =~= a.take(n - 1));
        assert(g[i - 1].take(n).drop_last() =~= g[i - 1].take(n - 1));
    } else {
        assert(a.take(0).len() == 0);
        assert(g[i - 1].take(0).len() == 0);
    }
}

proof fn lemma_count_below(g: Seq<Seq<Space>>, i: int, n: int)
    requires
        1 <= i < g.len(),
        0 <= n <= g[i].len(),
    ensures
        count_round(lift_row(g, i)[i].take(n)) == count_round(g[i].take(n)) - moves_count(g, i, n),
    decreases n,
{
    let b = lift_row(g, i)[i];
    if n > 0 {
        lemma_count_below(g, i, n - 1);
        assert(b.take(n).drop_last() =~= b.take(n - 1));
        assert(g[i].take(n).drop_last() =~= g[i].take(n - 1));
    } else {
        assert(b.take(0).len() == 0);
        assert(g[i].take(0).len() == 0);
    }
}

proof fn lemma_moves_positive(g: Seq<Seq<Space>>, i: int, n: int)
    requires
        1 <= i < g.len(),
        n >= 0,
    ensures
        moves_count(g, i, n) >= 0,
        moves_count(g, i, n) > 0 <==> exists|j: int| 0 <= j < n && moved_at(g, i, j),
    decreases n,
{
    if n > 0 {
        lemma_moves_positive(g, i, n - 1);
        if moved_at(g, i, n - 1) {
        } else if exists|j: int| 0 <= j < n && moved_at(g, i, j) {
            let j = choose|j: int| 0 <= j < n && moved_at(g, i, j);
            assert(j < n - 1);
        }
    }
}

/// Lifting row `i` lowers the weight by the number of rocks that move, and changes
/// nothing where none can.
proof fn lemma_lift_weight(g: Seq<Seq<Space>>, i: int)
    requires
        1 <= i < g.len(),
    ensures
        lift_row(g, i).len() == g.len(),
        row_can_move(g, i) ==> weight(lift_row(g, i)) < weight(g),
        !row_can_move(g, i) ==> lift_row(g, i) == g,
{
    let la = g[i - 1].len() as int;
    let lr = g[i].len() as int;
    let h = lift_row(g, i);
    lemma_count_above(g, i, la);
    lemma_count_below(g, i, lr);
    assert(h[i - 1].take(la) =~= h[i - 1]);
    assert(g[i - 1].take(la) =~= g[i - 1]);
    assert(h[i].take(lr) =~= h[i]);
    assert(g[i].take(lr) =~= g[i]);
    lemma_moves_stable(g, i, la);
    lemma_moves_stable(g, i, lr);
    let m = moves_count(g, i, la);
    let g1 = g.update(i - 1, h[i - 1]);
    lemma_weight_update(g, i - 1, h[i - 1]);
    lemma_weight_update(g1, i, h[i]);
    assert(h =~= g1.update(i, h[i]));
    assert(g1[i] == g[i]);
    lemma_moves_positive(g, i, la);
    if row_can_move(g, i) {
        let j = choose|j: int| 0 <= j < g[i].len() && #[trigger] g[i][j] == Space::RoundRock && j < g[i - 1].len() && g[i - 1][j] == Space::Empty;
        assert(moved_at(g, i, j));
        assert(m > 0);
        assert(count_round(h[i - 1]) == count_round(g[i - 1]) + m);
        assert(count_round(h[i]) == count_round(g[i]) - m);
        assert(weight(g1) == weight(g) + (i - 1) * m);
        assert(weight(h) == weight(g1) + i * (0 - m));
        assert((i - 1) * m + i * (0 - m) == 0 - m) by (nonlinear_arith);
    } else {
        assert forall|j: int| 0 <= j < la implies !moved_at(g, i, j) by {
            if moved_at(g, i, j) {
                assert(g[i][j] == Space::RoundRock);
            }
        }
        assert(h[i - 1] =~= g[i - 1]);
        assert(h[i] =~= g[i]);
        assert(h =~= g);
    }
}

/// A pass lowers the weight where a rock moves, and changes nothing where none does.
proof fn lemma_pass_weight(g: Seq<Seq<Space>>, i: int)
    requires
        i >= 1,
    ensures
        pass_from(g, i).0.len() == g.len(),
        pass_from(g, i).1 ==> weight(pass_from(g, i).0) < weight(g),
        !pass_from(g, i).1 ==> pass_from(g, i).0 == g,
        weight(pass_from(g, i).0) <= weight(g),
    decreases g.len() - i,
{
    if i < g.len() {
        lemma_lift_weight(g, i);
        lemma_pass_weight(lift_row(g, i), i + 1);
    }
}

/// The platform after passes repeated until one moves nothing.
pub open spec fn settle(g: Seq<Seq<Space>>) -> Seq<Seq<Space>>
    decreases weight(g) when weight(g) >= 0 via settle_decreases
{
    let (h, moved) = pass_from(g, 1);
    if moved {
        settle(h)
    } else {
        g
    }
}

#[via_fn]
proof fn settle_decreases(g: Seq<Seq<Space>>) {
    lemma_pass_weight(g, 1);
    lemma_weight_nonneg(pass_from(g, 1).0);
}

impl Grid {
    /// Reads the platform, one row per line.
    pub fn parse(input: &Vec<String>) -> (r: Result<Grid, UnknownSpace>)
        ensures
            r is Err <==> exists|y: int, x: int|
                0 <= y < input@.len() && 0 <= x < input@[y]@.len() && (#[trigger] Space::of_char(
                    input@[y]@[x],
                )) is None,
            r matches Ok(g) ==> g.spaces@.len() == input@.len() && forall|y: int, x: int|
                0 <= y < input@.len() && 0 <= x < input@[y]@.len() ==> (#[trigger] g.spaces@[y]@[x])
                    == match Space::of_char(input@[y]@[x]) {
                    Some(s) => s,
                    None => Space::Empty,
                } && g.spaces@[y]@.len() == input@[y]@.len(),
    {
        let mut spaces: Vec<Vec<Space>> = Vec::new();
        let mut y: usize = 0;
        while y < input.len()
            invariant
                y <= input@.len(),
                spaces@.len() == y,
                forall|k: int, x: int|
                    0 <= k < y && 0 <= x < input@[k]@.len() ==> (#[trigger] Space::of_char(
                        input@[k]@[x],
                    )) is Some,
                forall|k: int| 0 <= k < y ==> (#[trigger] spaces@[k])@.len() == input@[k]@.len(),
                forall|k: int, x: int|
                    0 <= k < y && 0 <= x < input@[k]@.len() ==> Space::of_char(input@[k]@[x])
                        == Some(#[trigger] spaces@[k]@[x]),
            decreases input@.len() - y,
        {
            let chars = chars_of(input[y].as_str());
            let mut row: Vec<Space> = Vec::new();
            let mut x: usize = 0;
            while x < chars.len()
                invariant
                    y < input@.len(),
                    chars@ == input@[y as int]@,
                    x <= chars@.len(),
                    row@.len() == x,
                    forall|i: int| 0 <= i < x ==> Space::of_char(chars@[i]) == Some(#[trigger] row@[i]),
                decreases chars@.len() - x,
            {
                match Space::try_from(chars[x]) {
                    Ok(s) => {
                        row.push(s);
                    },
                    Err(e) => {
                        assert(Space::of_char(input@[y as int]@[x as int]) is None);
                        return Err(e);
                    },
                }
                x += 1;
            }
            assert forall|i: int| 0 <= i < input@[y as int]@.len() implies (#[trigger] Space::of_char(
                input@[y as int]@[i],
            )) is Some by {
                assert(Space::of_char(chars@[i]) == Some(row@[i]));
            }
            let ghost prev = spaces@;
            spaces.push(row);
            assert(forall|k: int| 0 <= k < y ==> spaces@[k] == prev[k]);
            y += 1;
        }
        Ok(Grid { spaces })
    }

    /// The lifted row and the row north of it, and whether any rock moved.
    fn lift_pair(above: &Vec<Space>, row: &Vec<Space>) -> (r: (Vec<Space>, Vec<Space>, bool))
        ensures
            ({
                let g = seq![above@, row@];
                let h = lift_row(g, 1);
                r.0@ == h[0] && r.1@ == h[1] && r.2 == row_can_move(g, 1)
            }),
    {
        let ghost g = seq![above@, row@];
        let ghost a0 = above@;
        let ghost r0 = row@;
        let mut new_above: Vec<Space> = Vec::new();
        let mut k: usize = 0;
        while k < above.len()
            invariant
                a0 == above@,
                r0 == row@,
                k <= a0.len(),
                new_above@.len() == k,
                forall|m: int| 0 <= m < k ==> #[trigger] new_above@[m] == if m < r0.len() && r0[m] == Space::RoundRock && a0[m] == Space::Empty { Space::RoundRock } else { a0[m] },
            decreases a0.len() - k,
        {
            if k < row.len() && row[k] == Space::RoundRock && above[k] == Space::Empty {
                new_above.push(Space::RoundRock);
            } else {
                new_above.push(above[k]);
            }
            k += 1;
        }
        let mut new_row: Vec<Space> = Vec::new();
        let mut moved = false;
        k = 0;
        while k < row.len()
            invariant
                a0 == above@,
                r0 == row@,
                k <= r0.len(),
                new_row@.len() == k,
                forall|m: int| 0 <= m < k ==> #[trigger] new_row@[m] == if r0[m] == Space::RoundRock && m < a0.len() && a0[m] == Space::Empty { Space::Empty } else { r0[m] },
                moved == exists|m: int| 0 <= m < k && #[trigger] r0[m] == Space::RoundRock && m < a0.len() && a0[m] == Space::Empty,
            decreases r0.len() - k,
        {
            if row[k] == Space::RoundRock && k < above.len() && above[k] == Space::Empty {
                new_row.push(Space::Empty);
                moved = true;
            } else {
                new_row.push(row[k]);
            }
            k += 1;
        }
        let ghost h = lift_row(g, 1);
        assert(new_above@ =~= h[0]);
        assert(new_row@ =~= h[1]);
        assert(moved == row_can_move(g, 1)) by {
            if moved {
                let m = choose|m: int| 0 <= m < k && #[trigger] r0[m] == Space::RoundRock && m < a0.len() && a0[m] == Space::Empty;
                assert(g[1][m] == Space::RoundRock);
            }
            if row_can_move(g, 1) {
                let m = choose|m: int| 0 <= m < g[1].len() && #[trigger] g[1][m] == Space::RoundRock && m < g[0].len() && g[0][m] == Space::Empty;
                assert(r0[m] == Space::RoundRock);
            }
        }
        (new_above, new_row, moved)
    }

    /// One northward pass: from the second row down, each round rock with open space
    /// just north of it moves there. Whether any rock moved.
    pub fn shift_north_once(&mut self) -> (r: bool)
        requires
            old(self).spaces@.len() >= 1,
        ensures
            (rows_of(final(self).spaces@), r) == pass_from(rows_of(old(self).spaces@), 1),
    {
        let ghost target = pass_from(rows_of(self.spaces@), 1);
        let mut shifted = false;
        let mut i: usize = 1;
        while i < self.spaces.len()
            invariant
                1 <= i,
                i <= self.spaces@.len() || self.spaces@.len() == 1,
                ({
                    let (h, m) = pass_from(rows_of(self.spaces@), i as int);
                    (h, m || shifted) == target
                }),
            decreases self.spaces@.len() - i,
        {
            let ghost g = rows_of(self.spaces@);
            let ghost a0 = g[i - 1];
            let ghost r0 = g[i as int];
            let (above, row, moved) = Grid::lift_pair(&self.spaces[i - 1], &self.spaces[i]);
            proof {
                lemma_lift_local(g, i as int);
            }
            self.spaces.set(i - 1, above);
            self.spaces.set(i, row);
            assert(rows_of(self.spaces@) =~= lift_row(g, i as int));
            shifted = shifted || moved;
            i += 1;
        }
        shifted
    }

    /// Tilts the platform until every round rock has rolled as far north as it can:
    /// passes repeat until one moves nothing.
    pub fn shift_north_until_settled(&mut self)
        requires
            old(self).spaces@.len() >= 1,
        ensures
            rows_of(final(self).spaces@) == settle(rows_of(old(self).spaces@)),
            final(self).spaces@.len() == old(self).spaces@.len(),
    {
        let ghost goal = settle(rows_of(self.spaces@));
        let ghost n = self.spaces@.len();
        loop
            invariant
                self.spaces@.len() == n,
                n >= 1,
                settle(rows_of(self.spaces@)) == goal,
            ensures
                rows_of(self.spaces@) == goal,
                self.spaces@.len() == n,
            decreases weight(rows_of(self.spaces@)),
        {
            let ghost before = rows_of(self.spaces@);
            let moved = self.shift_north_once();
            proof {
                lemma_pass_weight(before, 1);
                lemma_weight_nonneg(before);
                lemma_weight_nonneg(rows_of(self.spaces@));
                assert(rows_of(self.spaces@).len() == self.spaces@.len());
            }
            if !moved {
                assert(rows_of(self.spaces@) == before);
                assert(settle(before) == before);
                break;
            }
        }
    }

    /// The load on the north beams.
    pub fn get_load(&self) -> (r: usize)
        requires
            load_of(rows_of(self.spaces@), self.spaces@.len() as int) <= usize::MAX,
        ensures
            r == load_of(rows_of(self.spaces@), self.spaces@.len() as int),
    {
        let ghost g = rows_of(self.spaces@);
        let n = self.spaces.len();
        let mut total: usize = 0;
        let mut i: usize = 0;
        while i < n
            invariant
                g == rows_of(self.spaces@),
                n == g.len(),
                i <= n,
                total == load_of(g, i as int),
                load_of(g, n as int) <= usize::MAX,
            decreases n - i,
        {
            let row = &self.spaces[i];
            let mut count: usize = 0;
            let mut k: usize = 0;
            while k < row.len()
                invariant
                    i < n,
                    g[i as int] == row@,
                    k <= row@.len(),
                    count == count_round(row@.take(k as int)),
                    count <= k,
                decreases row@.len() - k,
            {
                assert(row@.take(k + 1).drop_last() =~= row@.take(k as int));
                if row[k] == Space::RoundRock {
                    count += 1;
                }
                k += 1;
            }
            assert(row@.take(k as int) =~= row@);
            proof {
                lemma_load_grows(g, i + 1, n as int);
            }
            total = total + (n - i) * count;
            i += 1;
        }
        total
    }
}

} // verus!
