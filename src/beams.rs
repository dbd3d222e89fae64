use vstd::prelude::*;
use crate::route::Direction;
use crate::text::chars_of;

verus! {

/// What a tile of the contraption holds.
#[derive(Debug, Clone, Copy, PartialEq, Eq, Structural)]
pub enum Space {
    /// `.`
    Empty,
    /// `/`
    MirrorForward,
    /// `\`
    MirrorBackward,
    /// `-`
    SplitLR,
    /// `|`
    SplitUD,
}

/// A character that names no tile.
#[derive(Debug, Clone, Copy, PartialEq, Eq, Structural)]
pub struct UnknownSpace {
    pub c: char,
}

impl Space {
    /// The tile that `c` draws.
    pub open spec fn of_char(c: char) -> Option<Space> {
        if c == '.' {
            Some(Space::Empty)
        } else if c == '/' {
            Some(Space::MirrorForward)
        } else if c == '\\' {
            Some(Space::MirrorBackward)
        } else if c == '-' {
            Some(Space::SplitLR)
        } else if c == '|' {
            Some(Space::SplitUD)
        } else {
            None
        }
    }

    pub fn try_from(c: char) -> (r: Result<Space, UnknownSpace>)
        ensures
            match Space::of_char(c) {
                Some(s) => r == Ok::<Space, UnknownSpace>(s),
                None => r == Err::<Space, UnknownSpace>(UnknownSpace { c }),
            },
    {
        match c {
            '.' => Ok(Space::Empty),
            '/' => Ok(Space::MirrorForward),
            '\\' => Ok(Space::MirrorBackward),
            '-' => Ok(Space::SplitLR),
            '|' => Ok(Space::SplitUD),
            _ => Err(UnknownSpace { c }),
        }
    }
}

#[derive(Debug, Clone, Copy, PartialEq, Eq, Structural)]
pub struct Pos {
    pub x: usize,
    pub y: usize,
}

impl Pos {
    pub fn new(x: usize, y: usize) -> (r: Pos)
        ensures
            r == (Pos { x, y }),
    {
        Pos { x, y }
    }

    /// The neighbouring position in direction `d`, where it lies within a `w` by `h`
    /// grid.
    pub open spec fn moved(self, d: Direction, w: int, h: int) -> Option<Pos> {
        match d {
            Direction::Up => if self.y == 0 {
                None
            } else {
                Some(Pos { x: self.x, y: (self.y - 1) as usize })
            },
            Direction::Down => if self.y + 1 >= h {
                None
            } else {
                Some(Pos { x: self.x, y: (self.y + 1) as usize })
            },
            Direction::Left => if self.x == 0 {
                None
            } else {
                Some(Pos { x: (self.x - 1) as usize, y: self.y })
            },
            Direction::Right => if self.x + 1 >= w {
                None
            } else {
                Some(Pos { x: (self.x + 1) as usize, y: self.y })
            },
        }
    }

    pub fn step(&self, d: &Direction, w: usize, h: usize) -> (r: Option<Pos>)
        requires
            w >= 1,
            h >= 1,
        ensures
            r == self.moved(*d, w as int, h as int),
    {
        match d {
            Direction::Up => {
                if self.y == 0 {
                    None
                } else {
                    Some(Pos::new(self.x, self.y - 1))
                }
            },
            Direction::Down => {
                if self.y >= h - 1 {
                    None
                } else {
                    Some(Pos::new(self.x, self.y + 1))
                }
            },
            Direction::Left => {
                if self.x == 0 {
                    None
                } else {
                    Some(Pos::new(self.x - 1, self.y))
                }
            },
            Direction::Right => {
                if self.x >= w - 1 {
                    None
                } else {
                    Some(Pos::new(self.x + 1, self.y))
                }
            },
        }
    }
}

/// A beam of light: where it stands and where it heads.
#[derive(Debug, Clone, Copy, PartialEq, Eq, Structural)]
pub struct Beam {
    pub pos: Pos,
    pub dir: Direction,
}

/// The beam that goes on from `p` in `d`, where `p` has a neighbour that way.
pub open spec fn beam_toward(p: Pos, d: Direction, w: int, h: int) -> Seq<Beam> {
    match p.moved(d, w, h) {
        Some(q) => seq![Beam { pos: q, dir: d }],
        None => seq![],
    }
}

/// The directions in which a beam heading in `d` leaves a tile holding `s`.
pub open spec fn exits(s: Space, d: Direction) -> Seq<Direction> {
    match s {
        Space::Empty => seq![d],
        Space::MirrorForward => seq![
            match d {
                Direction::Right => Direction::Up,
                Direction::Down => Direction::Left,
                Direction::Left => Direction::Down,
                Direction::Up => Direction::Right,
            },
        ],
        Space::MirrorBackward => seq![
            match d {
                Direction::Right => Direction::Down,
                Direction::Down => Direction::Right,
                Direction::Left => Direction::Up,
                Direction::Up => Direction::Left,
            },
        ],
        Space::SplitLR => match d {
            Direction::Left | Direction::Right => seq![d],
            _ => seq![Direction::Left, Direction::Right],
        },
        Space::SplitUD => match d {
            Direction::Up | Direction::Down => seq![d],
            _ => seq![Direction::Up, Direction::Down],
        },
    }
}

impl Beam {
    pub fn new(x: usize, y: usize, dir: Direction) -> (r: Beam)
        ensures
            r == (Beam { pos: Pos { x, y }, dir }),
    {
        let pos = Pos::new(x, y);
        Beam { pos, dir }
    }

    /// What comes of this beam one step on, given the tile `s` it stands on: one beam
    /// for each way out of the tile that stays on the grid.
    pub open spec fn next(self, s: Space, w: int, h: int) -> Seq<Beam> {
        let e = exits(s, self.dir);
        if e.len() == 1 {
            beam_toward(self.pos, e[0], w, h)
        } else {
            beam_toward(self.pos, e[0], w, h) + beam_toward(self.pos, e[1], w, h)
        }
    }

    /// Moves the beam on by one tile, with the beams it becomes.
    fn toward(&self, d: Direction, w: usize, h: usize, out: &mut Vec<Beam>)
        requires
            w >= 1,
            h >= 1,
        ensures
            final(out)@ == old(out)@ + beam_toward(self.pos, d, w as int, h as int),
    {
        let ghost before = out@;
        if let Some(p) = self.pos.step(&d, w, h) {
            out.push(Beam::new(p.x, p.y, d));
        }
        assert(out@ =~= before + beam_toward(self.pos, d, w as int, h as int));
    }

    pub fn step(&self, s: &Space, w: usize, h: usize) -> (r: Vec<Beam>)
        requires
            w >= 1,
            h >= 1,
        ensures
            r@ == self.next(*s, w as int, h as int),
    {
        let mut nexts: Vec<Beam> = Vec::new();
        let ghost e = exits(*s, self.dir);
        match s {
            Space::Empty => {
                self.toward(self.dir, w, h, &mut nexts);
            },
            Space::MirrorForward => {
                let d = match self.dir {
                    Direction::Right => Direction::Up,
                    Direction::Down => Direction::Left,
                    Direction::Left => Direction::Down,
                    Direction::Up => Direction::Right,
                };
                self.toward(d, w, h, &mut nexts);
            },
            Space::MirrorBackward => {
                let d = match self.dir {
                    Direction::Right => Direction::Down,
                    Direction::Down => Direction::Right,
                    Direction::Left => Direction::Up,
                    Direction::Up => Direction::Left,
                };
                self.toward(d, w, h, &mut nexts);
            },
            Space::SplitLR => {
                match self.dir {
                    Direction::Left | Direction::Right => {
                        self.toward(self.dir, w, h, &mut nexts);
                    },
                    Direction::Up | Direction::Down => {
                        self.toward(Direction::Left, w, h, &mut nexts);
                        self.toward(Direction::Right, w, h, &mut nexts);
                    },
                }
            },
            Space::SplitUD => {
                match self.dir {
                    Direction::Up | Direction::Down => {
                        self.toward(self.dir, w, h, &mut nexts);
                    },
                    Direction::Left | Direction::Right => {
                        self.toward(Direction::Up, w, h, &mut nexts);
                        self.toward(Direction::Down, w, h, &mut nexts);
                    },
                }
            },
        }
        assert(nexts@ =~= self.next(*s, w as int, h as int));
        nexts
    }
}


/// `s` with each of `xs` that it lacks appended, in order.
pub open spec fn add_new<T>(s: Seq<T>, xs: Seq<T>) -> Seq<T>
    decreases xs.len(),
{
    if xs.len() == 0 {
        s
    } else {
        let prev = add_new(s, xs.drop_last());
        if prev.contains(xs.last()) {
            prev
        } else {
            prev.push(xs.last())
        }
    }
}

/// The tile under `p`.
pub open spec fn tile(g: Seq<Vec<Space>>, p: Pos) -> Space {
    g[p.y as int]@[p.x as int]
}

/// The beams that `bs` become one step on, in order.
pub open spec fn successors(g: Seq<Vec<Space>>, bs: Seq<Beam>, w: int, h: int) -> Seq<Beam>
    decreases bs.len(),
{
    if bs.len() == 0 {
        seq![]
    } else {
        successors(g, bs.drop_last(), w, h) + bs.last().next(tile(g, bs.last().pos), w, h)
    }
}

/// Those of `xs` that `seen` lacks, in order.
pub open spec fn unseen(xs: Seq<Beam>, seen: Seq<Beam>) -> Seq<Beam>
    decreases xs.len(),
{
    if xs.len() == 0 {
        seq![]
    } else {
        let rest = unseen(xs.drop_last(), seen);
        if seen.contains(xs.last()) {
            rest
        } else {
            rest.push(xs.last())
        }
    }
}

pub open spec fn positions(bs: Seq<Beam>) -> Seq<Pos> {
    bs.map_values(|b: Beam| b.pos)
}

/// The tiles lit once the beams `bs` and all that come of them have passed, given
/// the beam states `seen` and tiles `lit` so far, in at most `fuel` rounds.
pub open spec fn flood(
    g: Seq<Vec<Space>>,
    w: int,
    h: int,
    bs: Seq<Beam>,
    seen: Seq<Beam>,
    lit: Seq<Pos>,
    fuel: nat,
) -> Seq<Pos>
    decreases fuel,
{
    if fuel == 0 || bs.len() == 0 {
        lit
    } else {
        let seen2 = add_new(seen, bs);
        let lit2 = add_new(lit, positions(bs));
        flood(g, w, h, unseen(successors(g, bs, w, h), seen2), seen2, lit2, (fuel - 1) as nat)
    }
}

/// A rectangular grid with at least one tile, small enough to count its beam
/// states.
pub open spec fn layout_wf(g: Seq<Vec<Space>>) -> bool {
    &&& g.len() >= 1
    &&& g[0]@.len() >= 1
    &&& forall|y: int| 0 <= y < g.len() ==> (#[trigger] g[y])@.len() == g[0]@.len()
    &&& 4 * g.len() * g[0]@.len() + 1 <= usize::MAX
}

pub open spec fn beam_in(b: Beam, w: int, h: int) -> bool {
    b.pos.x < w && b.pos.y < h
}

proof fn lemma_unseen_append(xs: Seq<Beam>, ys: Seq<Beam>, seen: Seq<Beam>)
    ensures
        unseen(xs + ys, seen) == unseen(xs, seen) + unseen(ys, seen),
    decreases ys.len(),
{
    if ys.len() == 0 {
        assert(xs + ys =~= xs);
        assert(unseen(xs, seen) + unseen(ys, seen) =~= unseen(xs, seen));
    } else {
        lemma_unseen_append(xs, ys.drop_last(), seen);
        assert((xs + ys).drop_last() =~= xs + ys.drop_last());
        if seen.contains(ys.last()) {
        } else {
            assert(unseen(xs, seen) + unseen(ys.drop_last(), seen).push(ys.last()) =~= (unseen(
                xs,
                seen,
            ) + unseen(ys.drop_last(), seen)).push(ys.last()));
        }
    }
}

fn has_beam(v: &Vec<Beam>, b: Beam) -> (r: bool)
    ensures
        r == v@.contains(b),
{
    let mut i: usize = 0;
    while i < v.len()
        invariant
            i <= v@.len(),
            forall|k: int| 0 <= k < i ==> v@[k] != b,
        decreases v@.len() - i,
    {
        if v[i] == b {
            return true;
        }
        i += 1;
    }
    false
}

fn has_pos(v: &Vec<Pos>, p: Pos) -> (r: bool)
    ensures
        r == v@.contains(p),
{
    let mut i: usize = 0;
    while i < v.len()
        invariant
            i <= v@.len(),
            forall|k: int| 0 <= k < i ==> v@[k] != p,
        decreases v@.len() - i,
    {
        if v[i] == p {
            return true;
        }
        i += 1;
    }
    false
}

/// The number of tiles that a beam entering the top left corner heading right
/// lights: each round marks the beams' tiles, moves every beam on one tile, and
/// keeps the beams in states not met before; rounds stop when no beam is left, and
/// at most `4 * width * height + 1` of them are run.
pub fn energized_count(grid: &Vec<Vec<Space>>) -> (r: usize)
    requires
        layout_wf(grid@),
    ensures
        r == flood(
            grid@,
            grid@[0]@.len() as int,
            grid@.len() as int,
            seq![Beam { pos: Pos { x: 0, y: 0 }, dir: Direction::Right }],
            seq![],
            seq![],
            (4 * grid@.len() * grid@[0]@.len() + 1) as nat,
        ).len(),
{
    let ghost g = grid@;
    let height = grid.len();
    let width = grid[0].len();
    assert(4 * height <= 4 * height * width) by (nonlinear_arith)
        requires
            width >= 1,
    ;
    let limit = 4 * height * width + 1;
    let mut beams: Vec<Beam> = vec![Beam::new(0, 0, Direction::Right)];
    let mut seen: Vec<Beam> = Vec::new();
    let mut lit: Vec<Pos> = Vec::new();
    let ghost goal = flood(g, width as int, height as int, beams@, seen@, lit@, limit as nat);
    assert(beams@ =~= seq![Beam { pos: Pos { x: 0, y: 0 }, dir: Direction::Right }]);
    assert(seen@ =~= Seq::<Beam>::empty());
    assert(lit@ =~= Seq::<Pos>::empty());
    let mut round: usize = 0;
    while beams.len() > 0 && round < limit
        invariant
            g == grid@,
            layout_wf(g),
            height == g.len(),
            width == g[0]@.len(),
            limit == 4 * height * width + 1,
            round <= limit,
            flood(g, width as int, height as int, beams@, seen@, lit@, (limit - round) as nat) == goal,
            forall|k: int| 0 <= k < beams@.len() ==> beam_in(#[trigger] beams@[k], width as int, height as int),
        decreases limit - round,
    {
        let ghost bs = beams@;
        let ghost seen0 = seen@;
        let ghost lit0 = lit@;
        let mut i: usize = 0;
        while i < beams.len()
            invariant
                bs == beams@,
                i <= bs.len(),
                seen@ == add_new(seen0, bs.take(i as int)),
                lit@ == add_new(lit0, positions(bs.take(i as int))),
            decreases bs.len() - i,
        {
            let b = beams[i];
            assert(bs.take(i + 1).drop_last() =~= bs.take(i as int));
            assert(positions(bs.take(i + 1)).drop_last() =~= positions(bs.take(i as int)));
            if !has_beam(&seen, b) {
                seen.push(b);
            }
            if !has_pos(&lit, b.pos) {
                lit.push(b.pos);
            }
            i += 1;
        }
        assert(bs.take(i as int) =~= bs);
        let ghost seen2 = seen@;
        let mut next: Vec<Beam> = Vec::new();
        i = 0;
        while i < beams.len()
            invariant
                g == grid@,
                layout_wf(g),
                height == g.len(),
                width == g[0]@.len(),
                bs == beams@,
                seen2 == seen@,
                i <= bs.len(),
                next@ == unseen(successors(g, bs.take(i as int), width as int, height as int), seen2),
                forall|k: int| 0 <= k < bs.len() ==> beam_in(#[trigger] bs[k], width as int, height as int),
                forall|k: int| 0 <= k < next@.len() ==> beam_in(#[trigger] next@[k], width as int, height as int),
            decreases bs.len() - i,
        {
            let b = beams[i];
            assert(beam_in(bs[i as int], width as int, height as int));
            let row = &grid[b.pos.y];
            assert(row@.len() == width);
            let steps = b.step(&row[b.pos.x], width, height);
            let ghost before = next@;
            let ghost succ0 = successors(g, bs.take(i as int), width as int, height as int);
            assert(bs.take(i + 1).drop_last() =~= bs.take(i as int));
            assert(successors(g, bs.take(i + 1), width as int, height as int) == succ0 + steps@);
            let mut k: usize = 0;
            while k < steps.len()
                invariant
                    seen2 == seen@,
                    k <= steps@.len(),
                    next@ == before + unseen(steps@.take(k as int), seen2),
                    forall|m: int| 0 <= m < steps@.len() ==> beam_in(#[trigger] steps@[m], width as int, height as int),
                    forall|m: int| 0 <= m < next@.len() ==> beam_in(#[trigger] next@[m], width as int, height as int),
                decreases steps@.len() - k,
            {
                let n = steps[k];
                assert(steps@.take(k + 1).drop_last() =~= steps@.take(k as int));
                if !has_beam(&seen, n) {
                    next.push(n);
                    assert(before + unseen(steps@.take(k as int), seen2).push(n) =~= (before + unseen(steps@.take(k as int), seen2)).push(n));
                }
                k += 1;
            }
            assert(steps@.take(k as int) =~= steps@);
            proof {
                lemma_unseen_append(succ0, steps@, seen2);
            }
            i += 1;
        }
        assert(bs.take(i as int) =~= bs);
        beams = next;
        round += 1;
    }
    lit.len()
}


/// Reads the contraption, one row per line.
pub fn parse_layout(input: &Vec<String>) -> (r: Result<Vec<Vec<Space>>, UnknownSpace>)
    ensures
        r is Err <==> exists|y: int, x: int|
            0 <= y < input@.len() && 0 <= x < input@[y]@.len() && (#[trigger] Space::of_char(
                input@[y]@[x],
            )) is None,
        r matches Ok(g) ==> g@.len() == input@.len() && forall|y: int, x: int|
            0 <= y < input@.len() && 0 <= x < input@[y]@.len() ==> Space::of_char(input@[y]@[x])
                == Some(#[trigger] g@[y]@[x]) && g@[y]@.len() == input@[y]@.len(),
{
    let mut grid: Vec<Vec<Space>> = Vec::new();
    let mut y: usize = 0;
    while y < input.len()
        invariant
            y <= input@.len(),
            grid@.len() == y,
            forall|k: int, x: int|
                0 <= k < y && 0 <= x < input@[k]@.len() ==> (#[trigger] Space::of_char(
                    input@[k]@[x],
                )) is Some,
            forall|k: int| 0 <= k < y ==> (#[trigger] grid@[k])@.len() == input@[k]@.len(),
            forall|k: int, x: int|
                0 <= k < y && 0 <= x < input@[k]@.len() ==> Space::of_char(input@[k]@[x])
                    == Some(#[trigger] grid@[k]@[x]),
        decreases input@.len() - y,
    {
        let chars = chars_of(input[y].as_str());
        let mut row: Vec<Space> = Vec::new();
        let mut x: usize = 0;
        while x < chars.len()
            invariant
                y < input@.len(),
                chars@ == input@[y as int]@,
                x <= chars@.len(),
                row@.len() == x,
                forall|i: int| 0 <= i < x ==> Space::of_char(chars@[i]) == Some(#[trigger] row@[i]),
            decreases chars@.len() - x,
        {
            match Space::try_from(chars[x]) {
                Ok(s) => {
                    row.push(s);
                },
                Err(e) => {
                    assert(Space::of_char(input@[y as int]@[x as int]) is None);
                    return Err(e);
                },
            }
            x += 1;
        }
        assert forall|i: int| 0 <= i < input@[y as int]@.len() implies (#[trigger] Space::of_char(
            input@[y as int]@[i],
        )) is Some by {
            assert(Space::of_char(chars@[i]) == Some(row@[i]));
        }
        let ghost prev = grid@;
        grid.push(row);
        assert(forall|k: int| 0 <= k < y ==> grid@[k] == prev[k]);
        y += 1;
    }
    Ok(grid)
}

} // verus!
