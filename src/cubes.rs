use vstd::prelude::*;
use vstd::string::*;
use crate::text::{split_char, split_on, parse_usize, is_digit, is_unsigned, decimal, unsigned_digits};

verus! {

/// Counts of cubes by colour.
#[derive(Debug, Clone, Copy, PartialEq, Eq, Structural, Default)]
pub struct CubeSet {
    pub red: usize,
    pub green: usize,
    pub blue: usize,
}

pub open spec fn max_int(a: int, b: int) -> int {
    if a >= b {
        a
    } else {
        b
    }
}

impl CubeSet {
    /// No colour has more cubes than in `total`.
    pub open spec fn within(self, total: CubeSet) -> bool {
        self.red <= total.red && self.green <= total.green && self.blue <= total.blue
    }

    pub fn add(&self, other: &CubeSet) -> (r: CubeSet)
        requires
            self.red + other.red <= usize::MAX,
            self.green + other.green <= usize::MAX,
            self.blue + other.blue <= usize::MAX,
        ensures
            r.red == self.red + other.red,
            r.green == self.green + other.green,
            r.blue == self.blue + other.blue,
    {
        CubeSet {
            red: self.red + other.red,
            green: self.green + other.green,
            blue: self.blue + other.blue,
        }
    }

    /// The larger count of each colour.
    pub fn max(self, other: CubeSet) -> (r: CubeSet)
        ensures
            r.red == max_int(self.red as int, other.red as int),
            r.green == max_int(self.green as int, other.green as int),
            r.blue == max_int(self.blue as int, other.blue as int),
    {
        CubeSet {
            red: if self.red >= other.red {
                self.red
            } else {
                other.red
            },
            green: if self.green >= other.green {
                self.green
            } else {
                other.green
            },
            blue: if self.blue >= other.blue {
                self.blue
            } else {
                other.blue
            },
        }
    }

    /// The product of the three counts.
    pub fn power(&self) -> (r: usize)
        requires
            self.red * self.green <= usize::MAX,
            self.red * self.green * self.blue <= usize::MAX,
        ensures
            r == self.red * self.green * self.blue,
    {
        self.red * self.green * self.blue
    }
}

/// One game: its number and the handfuls shown.
#[derive(Debug, Clone, PartialEq, Eq)]
pub struct GameRes {
    pub id: usize,
    pub sets: Vec<CubeSet>,
}

impl GameRes {
    /// Every handful of the game could come from a bag holding `total`.
    pub fn possible_with(&self, total: &CubeSet) -> (r: bool)
        ensures
            r == forall|i: int| 0 <= i < self.sets@.len() ==> (#[trigger] self.sets@[i]).within(*total),
    {
        let mut i: usize = 0;
        while i < self.sets.len()
            invariant
                i <= self.sets@.len(),
                forall|k: int| 0 <= k < i ==> (#[trigger] self.sets@[k]).within(*total),
            decreases self.sets@.len() - i,
        {
            let s = &self.sets[i];
            if !(s.red <= total.red && s.green <= total.green && s.blue <= total.blue) {
                return false;
            }
            i += 1;
        }
        true
    }
}


/// The end of the run of digits that starts at `i`.
pub open spec fn digit_run_end(s: Seq<char>, i: int) -> int
    decreases s.len() - i,
{
    if 0 <= i < s.len() && is_digit(s[i]) {
        digit_run_end(s, i + 1)
    } else {
        i
    }
}

pub open spec fn word_at(s: Seq<char>, j: int, w: Seq<char>) -> bool {
    0 <= j && j + w.len() <= s.len() && s.subrange(j, j + w.len()) == w
}

/// The colour name that starts at `j`, if any.
pub open spec fn colour_word_at(s: Seq<char>, j: int) -> Option<Seq<char>> {
    if word_at(s, j, seq!['r', 'e', 'd']) {
        Some(seq!['r', 'e', 'd'])
    } else if word_at(s, j, seq!['g', 'r', 'e', 'e', 'n']) {
        Some(seq!['g', 'r', 'e', 'e', 'n'])
    } else if word_at(s, j, seq!['b', 'l', 'u', 'e']) {
        Some(seq!['b', 'l', 'u', 'e'])
    } else {
        None
    }
}

/// A count and a colour start at `i`: digits, one space, a colour name.
pub open spec fn cube_match_at(s: Seq<char>, i: int) -> bool {
    let j = digit_run_end(s, i);
    &&& 0 <= i < s.len()
    &&& is_digit(s[i])
    &&& j < s.len()
    &&& s[j] == ' '
    &&& colour_word_at(s, j + 1) is Some
}

/// Relies on `regex::Regex::captures`, which finds the leftmost match: the two
/// capture groups of the first `([0-9]+) (red|green|blue)` in `part`.
#[verifier::external_body]
fn cube_captures(part: &str) -> (r: Option<(String, String)>)
    ensures
        r is None <==> forall|i: int| !cube_match_at(part@, i),
        r matches Some((count, colour)) ==> exists|i: int|
            cube_match_at(part@, i) && (forall|k: int| 0 <= k < i ==> !cube_match_at(part@, k))
                && count@ == part@.subrange(i, digit_run_end(part@, i)) && Some(colour@)
                == colour_word_at(part@, digit_run_end(part@, i) + 1),
{
    let re = regex::Regex::new(r"([0-9]+) (red|green|blue)").unwrap();
    match re.captures(part) {
        Some(caps) => match (caps.get(1), caps.get(2)) {
            (Some(a), Some(b)) => Some((a.as_str().to_string(), b.as_str().to_string())),
            _ => None,
        },
        None => None,
    }
}

/// The game number and the text of the handfuls, where the line reads
/// `Game <digits>: <text>` with no line break in the text.
pub open spec fn game_header(s: Seq<char>) -> Option<(Seq<char>, Seq<char>)> {
    let j = digit_run_end(s, 5);
    if word_at(s, 0, seq!['G', 'a', 'm', 'e', ' ']) && j > 5 && word_at(s, j, seq![':', ' '])
        && !s.skip(j + 2).contains('\n') {
        Some((s.subrange(5, j), s.skip(j + 2)))
    } else {
        None
    }
}

/// Relies on `regex::Regex::captures`: the two capture groups of
/// `^Game ([0-9]+): (.*)$`, whose `.` matches anything but a line break.
#[verifier::external_body]
fn game_captures(line: &str) -> (r: Option<(String, String)>)
    ensures
        match game_header(line@) {
            Some((id, rest)) => r matches Some((a, b)) && a@ == id && b@ == rest,
            None => r is None,
        },
{
    let re = regex::Regex::new(r"^Game ([0-9]+): (.*)$").unwrap();
    match re.captures(line) {
        Some(caps) => match (caps.get(1), caps.get(2)) {
            (Some(a), Some(b)) => Some((a.as_str().to_string(), b.as_str().to_string())),
            _ => None,
        },
        None => None,
    }
}


/// Why a record of cubes could not be read.
#[derive(Debug, Clone, Copy, PartialEq, Eq, Structural)]
pub enum CubeError {
    /// A part without a count and a colour.
    NoMatch,
    /// A count or game number too large for `usize`.
    BadNumber,
    /// Counts of one colour that sum beyond `usize`.
    TooMany,
    /// A line that does not read `Game <number>: <handfuls>`.
    BadGame,
}

/// The first position where a count and a colour start.
pub open spec fn first_cube_match(s: Seq<char>) -> int {
    choose|i: int| cube_match_at(s, i) && forall|k: int| 0 <= k < i ==> !cube_match_at(s, k)
}

/// The counts of red, green and blue cubes that one part names.
#[verifier::opaque]
pub open spec fn part_cubes(p: Seq<char>) -> Result<(int, int, int), CubeError> {
    if forall|i: int| !cube_match_at(p, i) {
        Err(CubeError::NoMatch)
    } else {
        let i = first_cube_match(p);
        let j = digit_run_end(p, i);
        let count = p.subrange(i, j);
        if !is_unsigned(count, usize::MAX as int) {
            Err(CubeError::BadNumber)
        } else {
            let n = decimal(unsigned_digits(count));
            let w = colour_word_at(p, j + 1);
            if w == Some(seq!['r', 'e', 'd']) {
                Ok((n, 0, 0))
            } else if w == Some(seq!['g', 'r', 'e', 'e', 'n']) {
                Ok((0, n, 0))
            } else {
                Ok((0, 0, n))
            }
        }
    }
}

/// The first error among the parts, if any.
pub open spec fn parts_error(parts: Seq<Seq<char>>) -> Option<CubeError>
    decreases parts.len(),
{
    if parts.len() == 0 {
        None
    } else {
        match part_cubes(parts[0]) {
            Err(e) => Some(e),
            Ok(_) => parts_error(parts.drop_first()),
        }
    }
}

/// The sum of the counts of the first `n` parts, each colour apart.
pub open spec fn parts_sum(parts: Seq<Seq<char>>, n: int) -> (int, int, int)
    decreases n,
{
    if n <= 0 {
        (0, 0, 0)
    } else {
        let (r, g, b) = parts_sum(parts, n - 1);
        match part_cubes(parts[n - 1]) {
            Ok((pr, pg, pb)) => (r + pr, g + pg, b + pb),
            Err(_) => (r, g, b),
        }
    }
}

/// The partial sums of every colour stay within `usize`.
pub open spec fn sums_fit(parts: Seq<Seq<char>>) -> bool {
    forall|n: int| 1 <= n <= parts.len() ==> {
        let t = #[trigger] parts_sum(parts, n);
        t.0 <= usize::MAX && t.1 <= usize::MAX && t.2 <= usize::MAX
    }
}

/// The cubes that a handful `N colour, N colour, ...` shows.
#[verifier::opaque]
pub open spec fn handful(s: Seq<char>) -> Result<(int, int, int), CubeError> {
    let parts = split_on(s, ',');
    match parts_error(parts) {
        Some(e) => Err(e),
        None => if sums_fit(parts) {
            Ok(parts_sum(parts, parts.len() as int))
        } else {
            Err(CubeError::TooMany)
        },
    }
}

proof fn lemma_parts_error_prefix(parts: Seq<Seq<char>>, k: int)
    requires
        0 <= k <= parts.len(),
        forall|t: int| 0 <= t < k ==> (#[trigger] part_cubes(parts[t])) is Ok,
    ensures
        parts_error(parts) == parts_error(parts.skip(k)),
    decreases k,
{
    if k > 0 {
        assert(parts.skip(1).skip(k - 1) =~= parts.skip(k));
        assert forall|t: int| 0 <= t < k - 1 implies (#[trigger] part_cubes(parts.skip(1)[t])) is Ok by {
            assert(parts.skip(1)[t] == parts[t + 1]);
        }
        assert(part_cubes(parts[0]) is Ok);
        assert(parts.drop_first() =~= parts.skip(1));
        lemma_parts_error_prefix(parts.skip(1), k - 1);
    } else {
        assert(parts.skip(0) =~= parts);
    }
}

fn part_cubes_of(part: &str) -> (r: Result<CubeSet, CubeError>)
    ensures
        match part_cubes(part@) {
            Ok((pr, pg, pb)) => r matches Ok(c) && c.red == pr && c.green == pg && c.blue == pb,
            Err(e) => r == Err::<CubeSet, CubeError>(e),
        },
{
    reveal(part_cubes);
    let (count, colour) = match cube_captures(part) {
        Some(c) => c,
        None => {
            return Err(CubeError::NoMatch);
        },
    };
    proof {
        let i = choose|i: int|
            cube_match_at(part@, i) && (forall|k: int| 0 <= k < i ==> !cube_match_at(part@, k))
                && count@ == part@.subrange(i, digit_run_end(part@, i)) && Some(colour@)
                == colour_word_at(part@, digit_run_end(part@, i) + 1);
        let f = first_cube_match(part@);
        if i < f {
            assert(!cube_match_at(part@, i));
        }
        if f < i {
            assert(!cube_match_at(part@, f));
        }
    }
    let n = match parse_usize(count.as_str()) {
        Some(n) => n,
        None => {
            return Err(CubeError::BadNumber);
        },
    };
    let first = colour.as_str().get_char(0);
    if first == 'r' {
        Ok(CubeSet { red: n, green: 0, blue: 0 })
    } else if first == 'g' {
        Ok(CubeSet { red: 0, green: n, blue: 0 })
    } else {
        Ok(CubeSet { red: 0, green: 0, blue: n })
    }
}


/// `c` holds the counts that `t` reads.
pub open spec fn holds(c: CubeSet, t: Result<(int, int, int), CubeError>) -> bool {
    match t {
        Ok((r, g, b)) => c.red == r && c.green == g && c.blue == b,
        Err(_) => false,
    }
}

fn checked_sum(a: usize, b: usize) -> (r: Option<usize>)
    ensures
        a + b <= usize::MAX ==> r == Some((a + b) as usize),
        a + b > usize::MAX ==> r is None,
{
    if a > usize::MAX - b {
        None
    } else {
        Some(a + b)
    }
}

impl CubeSet {
    /// Reads a handful: parts `N colour` separated by commas, the counts of one
    /// colour summed.
    pub fn parse(s: &str) -> (r: Result<CubeSet, CubeError>)
        ensures
            match handful(s@) {
                Ok((rd, gr, bl)) => r matches Ok(c) && c.red == rd && c.green == gr && c.blue == bl,
                Err(e) => r == Err::<CubeSet, CubeError>(e),
            },
    {
        reveal(handful);
        let parts = split_char(s, ',');
        let ghost ps = split_on(s@, ',');
        let mut sets: Vec<CubeSet> = Vec::new();
        let mut k: usize = 0;
        while k < parts.len()
            invariant
                ps == split_on(s@, ','),
                parts@.map_values(|p: String| p@) == ps,
                k <= ps.len(),
                sets@.len() == k,
                forall|t: int| 0 <= t < k ==> holds(sets@[t], #[trigger] part_cubes(ps[t])),
            decreases ps.len() - k,
        {
            assert(parts@[k as int]@ == ps[k as int]);
            match part_cubes_of(parts[k].as_str()) {
                Ok(c) => {
                    sets.push(c);
                },
                Err(e) => {
                    proof {
                        assert forall|t: int| 0 <= t < k implies (#[trigger] part_cubes(ps[t])) is Ok by {
                            assert(holds(sets@[t], part_cubes(ps[t])));
                        }
                        lemma_parts_error_prefix(ps, k as int);
                        assert(ps.skip(k as int)[0] == ps[k as int]);
                        assert(parts_error(ps) == Some(e));
                        reveal(handful);
                    }
                    return Err(e);
                },
            }
            k += 1;
        }
        proof {
            assert forall|t: int| 0 <= t < ps.len() implies (#[trigger] part_cubes(ps[t])) is Ok by {
                assert(holds(sets@[t], part_cubes(ps[t])));
            }
            lemma_parts_error_prefix(ps, ps.len() as int);
            assert(ps.skip(ps.len() as int).len() == 0);
        }
        let mut total = sets[0];
        assert(parts_sum(ps, 0) == (0int, 0int, 0int));
        let mut i: usize = 1;
        while i < sets.len()
            invariant
                ps == split_on(s@, ','),
                parts_error(ps) is None,
                sets@.len() == ps.len(),
                forall|t: int| 0 <= t < ps.len() ==> holds(sets@[t], #[trigger] part_cubes(ps[t])),
                1 <= i <= ps.len(),
                (total.red as int, total.green as int, total.blue as int) == parts_sum(ps, i as int),
                forall|n: int| 1 <= n <= i ==> {
                    let t = #[trigger] parts_sum(ps, n);
                    t.0 <= usize::MAX && t.1 <= usize::MAX && t.2 <= usize::MAX
                },
            decreases ps.len() - i,
        {
            let c = sets[i];
            let rd = checked_sum(total.red, c.red);
            let gr = checked_sum(total.green, c.green);
            let bl = checked_sum(total.blue, c.blue);
            match (rd, gr, bl) {
                (Some(a), Some(b), Some(d)) => {
                    total = CubeSet { red: a, green: b, blue: d };
                },
                _ => {
                    assert(!sums_fit(ps)) by {
                        let t = parts_sum(ps, i + 1);
                        assert(!(t.0 <= usize::MAX && t.1 <= usize::MAX && t.2 <= usize::MAX));
                    }
                    proof {
                        reveal(handful);
                    }
                    return Err(CubeError::TooMany);
                },
            }
            i += 1;
        }
        proof {
            reveal(handful);
        }
        Ok(total)
    }
}

/// The game that a line records: its number and its handfuls.
pub open spec fn game_text(line: Seq<char>) -> Result<(int, Seq<(int, int, int)>), CubeError> {
    match game_header(line) {
        None => Err(CubeError::BadGame),
        Some((id, rest)) => if !is_unsigned(id, usize::MAX as int) {
            Err(CubeError::BadNumber)
        } else {
            let hs = split_on(rest, ';');
            if exists|k: int| 0 <= k < hs.len() && (#[trigger] handful(hs[k])) is Err {
                let k = choose|k: int| 0 <= k < hs.len() && (#[trigger] handful(hs[k])) is Err && forall|t: int| 0 <= t < k ==> handful(hs[t]) is Ok;
                match handful(hs[k]) {
                    Err(e) => Err(e),
                    Ok(_) => Err(CubeError::BadGame),
                }
            } else {
                Ok((decimal(unsigned_digits(id)), Seq::new(hs.len(), |k: int| match handful(hs[k]) {
                    Ok(t) => t,
                    Err(_) => (0, 0, 0),
                })))
            }
        },
    }
}

impl GameRes {
    /// Reads `Game <number>: <handful>; <handful>; ...`.
    pub fn parse(s: &str) -> (r: Result<GameRes, CubeError>)
        ensures
            match game_text(s@) {
                Ok((id, hs)) => r matches Ok(g) && g.id == id && g.sets@.len() == hs.len() && forall|k: int|
                    0 <= k < hs.len() ==> (g.sets@[k].red as int, g.sets@[k].green as int, g.sets@[k].blue as int) == #[trigger] hs[k],
                Err(e) => r == Err::<GameRes, CubeError>(e),
            },
    {
        let (id_text, rest) = match game_captures(s) {
            Some(c) => c,
            None => {
                return Err(CubeError::BadGame);
            },
        };
        let id = match parse_usize(id_text.as_str()) {
            Some(v) => v,
            None => {
                return Err(CubeError::BadNumber);
            },
        };
        let parts = split_char(rest.as_str(), ';');
        let ghost hs = split_on(rest@, ';');
        let mut sets: Vec<CubeSet> = Vec::new();
        let mut k: usize = 0;
        while k < parts.len()
            invariant
                game_header(s@) == Some((id_text@, rest@)),
                is_unsigned(id_text@, usize::MAX as int),
                id == decimal(unsigned_digits(id_text@)),
                hs == split_on(rest@, ';'),
                parts@.map_values(|p: String| p@) == hs,
                k <= hs.len(),
                sets@.len() == k,
                forall|t: int| 0 <= t < k ==> holds(sets@[t], #[trigger] handful(hs[t])),
            decreases hs.len() - k,
        {
            assert(parts@[k as int]@ == hs[k as int]);
            match CubeSet::parse(parts[k].as_str()) {
                Ok(c) => {
                    sets.push(c);
                },
                Err(e) => {
                    proof {
                        assert(handful(hs[k as int]) == Err::<(int, int, int), CubeError>(e));
                        assert forall|t: int| 0 <= t < k implies (#[trigger] handful(hs[t])) is Ok by {
                            assert(holds(sets@[t], handful(hs[t])));
                        }
                        assert(exists|w: int| 0 <= w < hs.len() && (#[trigger] handful(hs[w])) is Err && forall|t: int| 0 <= t < w ==> handful(hs[t]) is Ok);
                        let w = choose|w: int| 0 <= w < hs.len() && (#[trigger] handful(hs[w])) is Err && forall|t: int| 0 <= t < w ==> handful(hs[t]) is Ok;
                        if w < k {
                            assert(handful(hs[w]) is Ok);
                        }
                        if k < w {
                            assert(handful(hs[k as int]) is Ok);
                        }
                    }
                    return Err(e);
                },
            }
            k += 1;
        }
        Ok(GameRes { id, sets })
    }
}


pub open spec fn possible(g: GameRes, total: CubeSet) -> bool {
    forall|i: int| 0 <= i < g.sets@.len() ==> (#[trigger] g.sets@[i]).within(total)
}

/// The sum of the numbers of the first `n` games that a bag holding `total` allows.
pub open spec fn possible_ids(games: Seq<GameRes>, total: CubeSet, n: int) -> int
    decreases n,
{
    if n <= 0 {
        0
    } else {
        possible_ids(games, total, n - 1) + if possible(games[n - 1], total) {
            games[n - 1].id as int
        } else {
            0
        }
    }
}

proof fn lemma_possible_ids_grows(games: Seq<GameRes>, total: CubeSet, i: int, j: int)
    requires
        0 <= i <= j,
    ensures
        0 <= possible_ids(games, total, i) <= possible_ids(games, total, j),
    decreases j,
{
    if i < j {
        lemma_possible_ids_grows(games, total, i, j - 1);
    } else if i > 0 {
        lemma_possible_ids_nonneg(games, total, i);
    }
}

proof fn lemma_possible_ids_nonneg(games: Seq<GameRes>, total: CubeSet, n: int)
    ensures
        possible_ids(games, total, n) >= 0,
    decreases n,
{
    if n > 0 {
        lemma_possible_ids_nonneg(games, total, n - 1);
    }
}

/// The sum of the numbers of the games that a bag holding `total` allows; `None`
/// where it is too large for `usize`.
pub fn possible_id_sum(games: &Vec<GameRes>, total: &CubeSet) -> (r: Option<usize>)
    ensures
        possible_ids(games@, *total, games@.len() as int) <= usize::MAX ==> r == Some(
            possible_ids(games@, *total, games@.len() as int) as usize,
        ),
        possible_ids(games@, *total, games@.len() as int) > usize::MAX ==> r is None,
{
    let mut sum: usize = 0;
    let mut i: usize = 0;
    while i < games.len()
        invariant
            i <= games@.len(),
            sum == possible_ids(games@, *total, i as int),
        decreases games@.len() - i,
    {
        let g = &games[i];
        if g.possible_with(total) {
            if sum > usize::MAX - g.id {
                proof {
                    lemma_possible_ids_grows(games@, *total, i + 1, games@.len() as int);
                }
                return None;
            }
            sum = sum + g.id;
        }
        i += 1;
    }
    Some(sum)
}


/// The most cubes of each colour among the first `n` handfuls.
pub open spec fn most_of(sets: Seq<CubeSet>, n: int) -> (int, int, int)
    decreases n,
{
    if n <= 1 {
        (sets[0].red as int, sets[0].green as int, sets[0].blue as int)
    } else {
        let (r, g, b) = most_of(sets, n - 1);
        (
            max_int(r, sets[n - 1].red as int),
            max_int(g, sets[n - 1].green as int),
            max_int(b, sets[n - 1].blue as int),
        )
    }
}

impl GameRes {
    /// The fewest cubes of each colour that the game could be played with: the most
    /// of each colour in any handful; `None` for a game without handfuls.
    pub fn fewest_cubes(&self) -> (r: Option<CubeSet>)
        ensures
            self.sets@.len() == 0 ==> r is None,
            self.sets@.len() > 0 ==> (r matches Some(c) && (c.red as int, c.green as int, c.blue as int)
                == most_of(self.sets@, self.sets@.len() as int)),
    {
        if self.sets.len() == 0 {
            return None;
        }
        let mut acc = self.sets[0];
        let mut i: usize = 1;
        while i < self.sets.len()
            invariant
                1 <= i <= self.sets@.len(),
                (acc.red as int, acc.green as int, acc.blue as int) == most_of(self.sets@, i as int),
            decreases self.sets@.len() - i,
        {
            acc = acc.max(self.sets[i]);
            i += 1;
        }
        Some(acc)
    }
}

} // verus!
