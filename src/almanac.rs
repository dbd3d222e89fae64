use vstd::prelude::*;
use crate::text::{parse_all_usize, trim, trimmed, split_words, words, parse_usize, is_unsigned, decimal, unsigned_digits};

verus! {

/// One line of a map: `width` numbers from `src_start` go to as many from
/// `dest_start`.
#[derive(Debug, Clone, Copy, PartialEq, Eq, Structural)]
pub struct MapRule {
    pub dest_start: usize,
    pub src_start: usize,
    pub width: usize,
}

/// Why a rule line could not be read.
#[derive(Debug, Clone, Copy, PartialEq, Eq, Structural)]
pub enum AlmanacError {
    /// A word that is not an unsigned number.
    BadNumber,
    /// Fewer than three numbers.
    TooFewNumbers,
    /// No line `seeds: n n n`.
    NoSeeds,
    /// No header `<src>-to-<dest> map`.
    NoMapType,
    /// Seed numbers that do not pair up into ranges.
    OddSeedCount,
}

/// The rule that a line `dest_start src_start width` writes; words beyond the third
/// must be numbers too.
#[verifier::opaque]
pub open spec fn rule_text(line: Seq<char>) -> Result<MapRule, AlmanacError> {
    let ws = words(trimmed(line));
    if !(forall|i: int| 0 <= i < ws.len() ==> is_unsigned(#[trigger] ws[i], usize::MAX as int)) {
        Err(AlmanacError::BadNumber)
    } else if ws.len() < 3 {
        Err(AlmanacError::TooFewNumbers)
    } else {
        Ok(
            MapRule {
                dest_start: decimal(unsigned_digits(ws[0])) as usize,
                src_start: decimal(unsigned_digits(ws[1])) as usize,
                width: decimal(unsigned_digits(ws[2])) as usize,
            },
        )
    }
}

impl MapRule {
    /// Both ranges end within `usize`.
    pub open spec fn wf(self) -> bool {
        self.src_start + self.width <= usize::MAX && self.dest_start + self.width <= usize::MAX
    }

    pub open spec fn covers(self, pos: int) -> bool {
        self.src_start <= pos < self.src_start + self.width
    }

    pub open spec fn covers_dest(self, pos: int) -> bool {
        self.dest_start <= pos < self.dest_start + self.width
    }

    pub open spec fn apply(self, pos: int) -> int {
        if self.covers(pos) {
            self.dest_start + (pos - self.src_start)
        } else {
            pos
        }
    }

    pub open spec fn apply_back(self, pos: int) -> int {
        if self.covers_dest(pos) {
            self.src_start + (pos - self.dest_start)
        } else {
            pos
        }
    }

    /// Reads `dest_start src_start width`; words beyond the third are read but not
    /// used.
    pub fn parse(line: &str) -> (r: Result<MapRule, AlmanacError>)
        ensures
            r == rule_text(line@),
    {
        reveal(rule_text);
        let parts = split_words(trim(line));
        let ghost ws = words(trimmed(line@));
        let mut nums: Vec<usize> = Vec::new();
        let mut i: usize = 0;
        while i < parts.len()
            invariant
                ws == words(trimmed(line@)),
                parts@.map_values(|w: String| w@) == ws,
                i <= parts@.len(),
                nums@.len() == i,
                forall|k: int| 0 <= k < i ==> is_unsigned(#[trigger] ws[k], usize::MAX as int),
                forall|k: int| 0 <= k < i ==> nums@[k] == decimal(unsigned_digits(#[trigger] ws[k])),
            decreases parts@.len() - i,
        {
            assert(parts@[i as int]@ == ws[i as int]);
            match parse_usize(parts[i].as_str()) {
                Some(v) => {
                    nums.push(v);
                },
                None => {
                    proof {
                        reveal(rule_text);
                    }
                    return Err(AlmanacError::BadNumber);
                },
            }
            i += 1;
        }
        proof {
            reveal(rule_text);
        }
        if nums.len() < 3 {
            return Err(AlmanacError::TooFewNumbers);
        }
        Ok(MapRule { dest_start: nums[0], src_start: nums[1], width: nums[2] })
    }

    pub fn is_in(&self, pos: usize) -> (r: bool)
        requires
            self.wf(),
        ensures
            r == self.covers(pos as int),
    {
        pos >= self.src_start && pos < self.src_start + self.width
    }

    /// Where `pos` goes: moved along with its range where the rule covers it, else
    /// unchanged.
    pub fn map(&self, pos: usize) -> (r: usize)
        requires
            self.wf(),
        ensures
            r == self.apply(pos as int),
    {
        if !self.is_in(pos) {
            return pos;
        }
        let offset = pos - self.src_start;
        self.dest_start + offset
    }

    pub fn was_in(&self, pos: usize) -> (r: bool)
        requires
            self.wf(),
        ensures
            r == self.covers_dest(pos as int),
    {
        pos >= self.dest_start && pos < self.dest_start + self.width
    }

    /// Where `pos` came from: the inverse of `map` on the destination range.
    pub fn unmap(&self, pos: usize) -> (r: usize)
        requires
            self.wf(),
        ensures
            r == self.apply_back(pos as int),
    {
        if !self.was_in(pos) {
            return pos;
        }
        let offset = pos - self.dest_start;
        self.src_start + offset
    }
}

/// A map from one category to the next.
#[derive(Debug, Clone, PartialEq, Eq)]
pub struct Mapping {
    pub src: String,
    pub dest: String,
    pub rules: Vec<MapRule>,
}

/// Where `pos` goes under the first of `rules` that covers it; unchanged where none
/// does.
pub open spec fn map_through(rules: Seq<MapRule>, pos: int) -> int
    decreases rules.len(),
{
    if rules.len() == 0 {
        pos
    } else if rules[0].covers(pos) {
        rules[0].apply(pos)
    } else {
        map_through(rules.drop_first(), pos)
    }
}

/// Where `pos` came from under the first of `rules` whose destination covers it.
pub open spec fn unmap_through(rules: Seq<MapRule>, pos: int) -> int
    decreases rules.len(),
{
    if rules.len() == 0 {
        pos
    } else if rules[0].covers_dest(pos) {
        rules[0].apply_back(pos)
    } else {
        unmap_through(rules.drop_first(), pos)
    }
}

impl Mapping {
    pub open spec fn wf(&self) -> bool {
        forall|i: int| 0 <= i < self.rules@.len() ==> (#[trigger] self.rules@[i]).wf()
    }

    pub fn map(&self, pos: usize) -> (r: usize)
        requires
            self.wf(),
        ensures
            r == map_through(self.rules@, pos as int),
    {
        let mut i: usize = 0;
        assert(self.rules@.skip(0) =~= self.rules@);
        while i < self.rules.len()
            invariant
                self.wf(),
                i <= self.rules@.len(),
                map_through(self.rules@, pos as int) == map_through(
                    self.rules@.skip(i as int),
                    pos as int,
                ),
            decreases self.rules@.len() - i,
        {
            let rule = &self.rules[i];
            assert(self.rules@.skip(i as int)[0] == *rule);
            if rule.is_in(pos) {
                return rule.map(pos);
            }
            assert(self.rules@.skip(i as int).drop_first() =~= self.rules@.skip(i + 1));
            i += 1;
        }
        pos
    }

    pub fn unmap(&self, pos: usize) -> (r: usize)
        requires
            self.wf(),
        ensures
            r == unmap_through(self.rules@, pos as int),
    {
        let mut i: usize = 0;
        assert(self.rules@.skip(0) =~= self.rules@);
        while i < self.rules.len()
            invariant
                self.wf(),
                i <= self.rules@.len(),
                unmap_through(self.rules@, pos as int) == unmap_through(
                    self.rules@.skip(i as int),
                    pos as int,
                ),
            decreases self.rules@.len() - i,
        {
            let rule = &self.rules[i];
            assert(self.rules@.skip(i as int)[0] == *rule);
            if rule.was_in(pos) {
                return rule.unmap(pos);
            }
            assert(self.rules@.skip(i as int).drop_first() =~= self.rules@.skip(i + 1));
            i += 1;
        }
        pos
    }
}

/// A range of seed numbers.
#[derive(Debug, Clone, Copy, PartialEq, Eq, Structural)]
pub struct SeedRange {
    pub start: usize,
    pub width: usize,
}

impl SeedRange {
    pub fn contains(&self, pos: usize) -> (r: bool)
        requires
            self.start + self.width <= usize::MAX,
        ensures
            r == (self.start <= pos < self.start + self.width),
    {
        pos >= self.start && pos < self.start + self.width
    }
}


pub open spec fn text_at(s: Seq<char>, i: int, w: Seq<char>) -> bool {
    0 <= i && i + w.len() <= s.len() && s.subrange(i, i + w.len()) == w
}

pub open spec fn seed_chars(s: Seq<char>) -> bool {
    forall|t: int| 0 <= t < s.len() ==> (#[trigger] s[t] == ' ' || ('0' <= s[t] && s[t] <= '9'))
}

/// The seed list starts at `i`: `seeds: ` then one or more digits and spaces up to
/// the end of the line.
pub open spec fn seeds_at(s: Seq<char>, i: int) -> bool {
    &&& text_at(s, i, seq!['s', 'e', 'e', 'd', 's', ':', ' '])
    &&& i + 7 < s.len()
    &&& seed_chars(s.skip(i + 7))
}

/// Relies on `regex::Regex::captures`, which finds the leftmost match: the capture
/// group of the first `seeds: ([0-9 ]+)$` in `line`.
#[verifier::external_body]
fn seeds_capture(line: &str) -> (r: Option<String>)
    ensures
        r is None <==> forall|i: int| !seeds_at(line@, i),
        r matches Some(g) ==> exists|i: int|
            seeds_at(line@, i) && (forall|k: int| 0 <= k < i ==> !seeds_at(line@, k)) && g@
                == line@.skip(i + 7),
{
    let re = regex::Regex::new(r"seeds: ([0-9 ]+)$").unwrap();
    match re.captures(line) {
        Some(caps) => match caps.get(1) {
            Some(m) => Some(m.as_str().to_string()),
            None => None,
        },
        None => None,
    }
}

/// The seed numbers that a line `seeds: n n n` lists.
#[verifier::opaque]
pub open spec fn seeds_text(line: Seq<char>) -> Option<Seq<Seq<char>>> {
    if exists|i: int| seeds_at(line, i) {
        let i = choose|i: int| seeds_at(line, i) && forall|k: int| 0 <= k < i ==> !seeds_at(line, k);
        Some(words(line.skip(i + 7)))
    } else {
        None
    }
}

/// Reads the seed numbers of the first line.
pub fn parse_seeds(line: &str) -> (r: Result<Vec<usize>, AlmanacError>)
    ensures
        match seeds_text(line@) {
            None => r == Err::<Vec<usize>, AlmanacError>(AlmanacError::NoSeeds),
            Some(ws) => if (forall|i: int| 0 <= i < ws.len() ==> is_unsigned(#[trigger] ws[i], usize::MAX as int)) {
                r matches Ok(v) && v@.len() == ws.len() && forall|i: int| 0 <= i < ws.len() ==> v@[i] == decimal(unsigned_digits(#[trigger] ws[i]))
            } else {
                r == Err::<Vec<usize>, AlmanacError>(AlmanacError::BadNumber)
            },
        },
{
    let group = match seeds_capture(line) {
        Some(g) => g,
        None => {
            proof {
                reveal(seeds_text);
            }
            return Err(AlmanacError::NoSeeds);
        },
    };
    proof {
        reveal(seeds_text);
        let i = choose|i: int|
            seeds_at(line@, i) && (forall|k: int| 0 <= k < i ==> !seeds_at(line@, k)) && group@
                == line@.skip(i + 7);
        let c = choose|i: int| seeds_at(line@, i) && forall|k: int| 0 <= k < i ==> !seeds_at(line@, k);
        if i < c {
            assert(!seeds_at(line@, i));
        }
        if c < i {
            assert(!seeds_at(line@, c));
        }
    }
    let parts = split_words(group.as_str());
    let ghost ws = words(group@);
    assert(seeds_text(line@) == Some(ws));
    match parse_all_usize(&parts) {
        Some(nums) => {
            assert forall|i: int| 0 <= i < ws.len() implies is_unsigned(#[trigger] ws[i], usize::MAX as int) by {
                assert(parts@[i]@ == ws[i]);
            }
            assert forall|i: int| 0 <= i < ws.len() implies nums@[i] == decimal(unsigned_digits(#[trigger] ws[i])) by {
                assert(parts@[i]@ == ws[i]);
            }
            Ok(nums)
        },
        None => {
            let ghost k = choose|k: int| 0 <= k < parts@.len() && !is_unsigned(#[trigger] parts@[k]@, usize::MAX as int);
            assert(parts@[k]@ == ws[k]);
            assert(!is_unsigned(ws[k], usize::MAX as int));
            Err(AlmanacError::BadNumber)
        },
    }
}

/// Where a seed ends up after each mapping in turn.
pub open spec fn map_all(mappings: Seq<Mapping>, pos: int) -> int
    decreases mappings.len(),
{
    if mappings.len() == 0 {
        pos
    } else {
        map_through(mappings.last().rules@, map_all(mappings.drop_last(), pos))
    }
}

/// The least of the first `n` seeds' locations.
pub open spec fn least_location(mappings: Seq<Mapping>, seeds: Seq<usize>, n: int) -> int
    decreases n,
{
    if n <= 1 {
        map_all(mappings, seeds[0] as int)
    } else {
        let a = least_location(mappings, seeds, n - 1);
        let b = map_all(mappings, seeds[n - 1] as int);
        if b < a {
            b
        } else {
            a
        }
    }
}

proof fn lemma_map_through_range(rules: Seq<MapRule>, pos: int)
    requires
        forall|i: int| 0 <= i < rules.len() ==> (#[trigger] rules[i]).wf(),
        0 <= pos <= usize::MAX,
    ensures
        0 <= map_through(rules, pos) <= usize::MAX,
    decreases rules.len(),
{
    if rules.len() > 0 && !rules[0].covers(pos) {
        assert forall|i: int| 0 <= i < rules.drop_first().len() implies (#[trigger] rules.drop_first()[i]).wf() by {
            assert(rules.drop_first()[i] == rules[i + 1]);
        }
        lemma_map_through_range(rules.drop_first(), pos);
    }
}

/// The seed's location: the seed taken through each mapping in turn.
pub fn locate(mappings: &Vec<Mapping>, seed: usize) -> (r: usize)
    requires
        forall|m: int| 0 <= m < mappings@.len() ==> (#[trigger] mappings@[m]).wf(),
    ensures
        r == map_all(mappings@, seed as int),
{
    let mut pos = seed;
    let mut m: usize = 0;
    while m < mappings.len()
        invariant
            forall|t: int| 0 <= t < mappings@.len() ==> (#[trigger] mappings@[t]).wf(),
            m <= mappings@.len(),
            pos == map_all(mappings@.take(m as int), seed as int),
        decreases mappings@.len() - m,
    {
        assert(mappings@.take(m + 1).drop_last() =~= mappings@.take(m as int));
        assert(mappings@.take(m + 1).last() == mappings@[m as int]);
        pos = mappings[m].map(pos);
        m += 1;
    }
    assert(mappings@.take(m as int) =~= mappings@);
    pos
}

/// The lowest location of any of the seeds; `None` where there are no seeds.
pub fn lowest_location(mappings: &Vec<Mapping>, seeds: &Vec<usize>) -> (r: Option<usize>)
    requires
        forall|m: int| 0 <= m < mappings@.len() ==> (#[trigger] mappings@[m]).wf(),
    ensures
        seeds@.len() == 0 ==> r is None,
        seeds@.len() > 0 ==> r == Some(least_location(mappings@, seeds@, seeds@.len() as int) as usize),
{
    if seeds.len() == 0 {
        return None;
    }
    let mut best = locate(mappings, seeds[0]);
    let mut i: usize = 1;
    while i < seeds.len()
        invariant
            forall|m: int| 0 <= m < mappings@.len() ==> (#[trigger] mappings@[m]).wf(),
            1 <= i <= seeds@.len(),
            best == least_location(mappings@, seeds@, i as int),
        decreases seeds@.len() - i,
    {
        let here = locate(mappings, seeds[i]);
        if here < best {
            best = here;
        }
        i += 1;
    }
    Some(best)
}


/// `-to-` at `e` and ` map` at `k`, after it.
pub open spec fn map_type_at(s: Seq<char>, e: int, k: int) -> bool {
    &&& text_at(s, e, seq!['-', 't', 'o', '-'])
    &&& e + 4 <= k
    &&& text_at(s, k, seq![' ', 'm', 'a', 'p'])
}

pub open spec fn has_map_after(s: Seq<char>, e: int) -> bool {
    exists|k: int| map_type_at(s, e, k)
}

/// The source and destination names of a header `<src>-to-<dest> map`: the longest
/// source that leaves a match, then the longest destination.
#[verifier::opaque]
pub open spec fn map_type_groups(s: Seq<char>) -> Option<(Seq<char>, Seq<char>)> {
    if exists|e: int| has_map_after(s, e) {
        let e = choose|e: int| has_map_after(s, e) && forall|e2: int| e2 > e ==> !has_map_after(s, e2);
        let k = choose|k: int| map_type_at(s, e, k) && forall|k2: int| k2 > k ==> !map_type_at(s, e, k2);
        Some((s.take(e), s.subrange(e + 4, k)))
    } else {
        None
    }
}

/// Relies on `regex::Regex::captures` on a line without line breaks: the two capture
/// groups of `(.*)-to-(.*) map`, each `.*` as long as a match allows, the first first.
#[verifier::external_body]
fn map_type_captures(line: &str) -> (r: Option<(String, String)>)
    requires
        !line@.contains('\n'),
    ensures
        match map_type_groups(line@) {
            Some((a, b)) => r matches Some((x, y)) && x@ == a && y@ == b,
            None => r is None,
        },
{
    let re = regex::Regex::new(r"(.*)-to-(.*) map").unwrap();
    match re.captures(line) {
        Some(caps) => match (caps.get(1), caps.get(2)) {
            (Some(a), Some(b)) => Some((a.as_str().to_string(), b.as_str().to_string())),
            _ => None,
        },
        None => None,
    }
}

/// The source and destination categories of a map header `<src>-to-<dest> map`.
pub fn parse_map_type(line: &str) -> (r: Result<(String, String), AlmanacError>)
    requires
        !line@.contains('\n'),
    ensures
        match map_type_groups(line@) {
            Some((a, b)) => r matches Ok((x, y)) && x@ == a && y@ == b,
            None => r == Err::<(String, String), AlmanacError>(AlmanacError::NoMapType),
        },
{
    match map_type_captures(line) {
        Some(pair) => Ok(pair),
        None => Err(AlmanacError::NoMapType),
    }
}

impl Mapping {
    /// Reads a map: its header line, then one rule per line.
    pub fn parse(lines: &Vec<String>) -> (r: Result<Mapping, AlmanacError>)
        requires
            lines@.len() >= 1,
            !lines@[0]@.contains('\n'),
        ensures
            match map_type_groups(lines@[0]@) {
                None => r == Err::<Mapping, AlmanacError>(AlmanacError::NoMapType),
                Some((a, b)) => match first_rule_error(lines@.skip(1).map_values(|l: String| l@)) {
                    Some(e) => r == Err::<Mapping, AlmanacError>(e),
                    None => r matches Ok(m) && m.src@ == a && m.dest@ == b && m.rules@.len() == lines@.len()
                        - 1 && forall|i: int| 0 <= i < m.rules@.len() ==> rule_text(lines@[i + 1]@) == Ok::<MapRule, AlmanacError>(
                        #[trigger] m.rules@[i],
                    ),
                },
            },
    {
        let (src, dest) = parse_map_type(lines[0].as_str())?;
        let ghost ls = lines@.skip(1).map_values(|l: String| l@);
        let mut rules: Vec<MapRule> = Vec::new();
        let mut i: usize = 1;
        while i < lines.len()
            invariant
                1 <= i <= lines@.len(),
                map_type_groups(lines@[0]@) == Some((src@, dest@)),
                ls == lines@.skip(1).map_values(|l: String| l@),
                rules@.len() == i - 1,
                forall|t: int| 0 <= t < i - 1 ==> rule_text(lines@[t + 1]@) == Ok::<MapRule, AlmanacError>(
                    #[trigger] rules@[t],
                ),
            decreases lines@.len() - i,
        {
            match MapRule::parse(lines[i].as_str()) {
                Ok(rule) => {
                    rules.push(rule);
                },
                Err(e) => {
                    proof {
                        assert forall|t: int| 0 <= t < i - 1 implies (#[trigger] rule_text(ls[t])) is Ok by {
                            assert(ls[t] == lines@[t + 1]@);
                            assert(rule_text(lines@[t + 1]@) == Ok::<MapRule, AlmanacError>(rules@[t]));
                        }
                        assert(ls[i - 1] == lines@[i as int]@);
                        lemma_first_rule_error(ls, i - 1);
                    }
                    return Err(e);
                },
            }
            i += 1;
        }
        proof {
            assert forall|t: int| 0 <= t < ls.len() implies (#[trigger] rule_text(ls[t])) is Ok by {
                assert(ls[t] == lines@[t + 1]@);
                assert(rule_text(lines@[t + 1]@) == Ok::<MapRule, AlmanacError>(rules@[t]));
            }
            lemma_no_rule_error(ls);
        }
        Ok(Mapping { src, dest, rules })
    }
}

/// The error of the first rule line that does not read, if any.
pub open spec fn first_rule_error(ls: Seq<Seq<char>>) -> Option<AlmanacError>
    decreases ls.len(),
{
    if ls.len() == 0 {
        None
    } else {
        match rule_text(ls[0]) {
            Err(e) => Some(e),
            Ok(_) => first_rule_error(ls.drop_first()),
        }
    }
}

proof fn lemma_first_rule_error(ls: Seq<Seq<char>>, k: int)
    requires
        0 <= k < ls.len(),
        forall|t: int| 0 <= t < k ==> (#[trigger] rule_text(ls[t])) is Ok,
        rule_text(ls[k]) is Err,
    ensures
        first_rule_error(ls) == Some(rule_text(ls[k])->Err_0),
    decreases k,
{
    if k > 0 {
        assert(rule_text(ls[0]) is Ok);
        assert forall|t: int| 0 <= t < k - 1 implies (#[trigger] rule_text(ls.drop_first()[t])) is Ok by {
            assert(ls.drop_first()[t] == ls[t + 1]);
        }
        assert(ls.drop_first()[k - 1] == ls[k]);
        lemma_first_rule_error(ls.drop_first(), k - 1);
    }
}

proof fn lemma_no_rule_error(ls: Seq<Seq<char>>)
    requires
        forall|t: int| 0 <= t < ls.len() ==> (#[trigger] rule_text(ls[t])) is Ok,
    ensures
        first_rule_error(ls) is None,
    decreases ls.len(),
{
    if ls.len() > 0 {
        assert(rule_text(ls[0]) is Ok);
        assert forall|t: int| 0 <= t < ls.len() - 1 implies (#[trigger] rule_text(ls.drop_first()[t])) is Ok by {
            assert(ls.drop_first()[t] == ls[t + 1]);
        }
        lemma_no_rule_error(ls.drop_first());
    }
}


/// The seed ranges that the numbers `ws` list: a start and a width, two at a time.
pub open spec fn listed_ranges(ws: Seq<Seq<char>>) -> Seq<SeedRange> {
    Seq::new(
        (ws.len() / 2) as nat,
        |k: int|
            SeedRange {
                start: decimal(unsigned_digits(ws[2 * k])) as usize,
                width: decimal(unsigned_digits(ws[2 * k + 1])) as usize,
            },
    )
}

/// The position after the ranges of `s`, from the front, that start no later than `v`.
pub open spec fn first_after(s: Seq<SeedRange>, v: usize) -> int
    decreases s.len(),
{
    if s.len() == 0 {
        0
    } else if s[0].start > v {
        0
    } else {
        1 + first_after(s.drop_first(), v)
    }
}

/// The ranges sorted by start, ranges with equal starts kept in the order listed (a
/// stable sort): each range in turn goes after those that start no later.
pub open spec fn sort_by_start(s: Seq<SeedRange>) -> Seq<SeedRange>
    decreases s.len(),
{
    if s.len() == 0 {
        s
    } else {
        let r = sort_by_start(s.drop_last());
        r.insert(first_after(r, s.last().start), s.last())
    }
}

pub open spec fn sorted_by_start(s: Seq<SeedRange>) -> bool {
    forall|i: int, j: int| 0 <= i < j < s.len() ==> (#[trigger] s[i]).start <= (#[trigger] s[j]).start
}

proof fn lemma_first_after(s: Seq<SeedRange>, v: usize)
    ensures
        0 <= first_after(s, v) <= s.len(),
        forall|k: int| 0 <= k < first_after(s, v) ==> (#[trigger] s[k]).start <= v,
        first_after(s, v) < s.len() ==> s[first_after(s, v)].start > v,
    decreases s.len(),
{
    if s.len() > 0 && s[0].start <= v {
        lemma_first_after(s.drop_first(), v);
        assert forall|k: int| 0 <= k < first_after(s, v) implies (#[trigger] s[k]).start <= v by {
            if k > 0 {
                assert(s[k] == s.drop_first()[k - 1]);
            }
        }
    }
}

/// Sorting by start gives ranges in order of their starts, the same ranges as
/// listed, as many times each.
pub proof fn lemma_sort_by_start(s: Seq<SeedRange>)
    ensures
        sorted_by_start(sort_by_start(s)),
        sort_by_start(s).to_multiset() == s.to_multiset(),
        sort_by_start(s).len() == s.len(),
    decreases s.len(),
{
    broadcast use vstd::seq_lib::to_multiset_insert;
    if s.len() > 0 {
        let r = sort_by_start(s.drop_last());
        lemma_sort_by_start(s.drop_last());
        let x = s.last();
        let p = first_after(r, x.start);
        lemma_first_after(r, x.start);
        let t = r.insert(p, x);
        assert forall|i: int, j: int| 0 <= i < j < t.len() implies (#[trigger] t[i]).start <= (#[trigger] t[j]).start by {
            if j < p {
                assert(t[i] == r[i] && t[j] == r[j]);
            } else if j == p {
                assert(t[j] == x);
                assert(t[i] == r[i]);
            } else if i < p {
                assert(t[i] == r[i] && t[j] == r[j - 1]);
                assert(r[i].start <= x.start);
                assert(r[p].start > x.start);
                if j - 1 > p {
                    assert(r[p].start <= r[j - 1].start);
                }
            } else if i == p {
                assert(t[i] == x && t[j] == r[j - 1]);
                assert(r[p].start > x.start);
                if j - 1 > p {
                    assert(r[p].start <= r[j - 1].start);
                }
            } else {
                assert(t[i] == r[i - 1] && t[j] == r[j - 1]);
            }
        }
        assert(s =~= s.drop_last().push(x));
        s.drop_last().to_multiset_ensures();
    }
}

/// Reads the seed ranges of the first line: the numbers taken two at a time, a start
/// and a width, then sorted by start (stably).
pub fn parse_seed_ranges(line: &str) -> (r: Result<Vec<SeedRange>, AlmanacError>)
    ensures
        match seeds_text(line@) {
            None => r == Err::<Vec<SeedRange>, AlmanacError>(AlmanacError::NoSeeds),
            Some(ws) => if !(forall|i: int| 0 <= i < ws.len() ==> is_unsigned(#[trigger] ws[i], usize::MAX as int)) {
                r == Err::<Vec<SeedRange>, AlmanacError>(AlmanacError::BadNumber)
            } else if ws.len() % 2 == 1 {
                r == Err::<Vec<SeedRange>, AlmanacError>(AlmanacError::OddSeedCount)
            } else {
                r matches Ok(v) && v@ == sort_by_start(listed_ranges(ws))
            },
        },
{
    let nums = parse_seeds(line)?;
    if nums.len() % 2 == 1 {
        return Err(AlmanacError::OddSeedCount);
    }
    let mut ranges: Vec<SeedRange> = Vec::new();
    let mut k: usize = 0;
    let half = nums.len() / 2;
    while k < half
        invariant
            half * 2 == nums@.len(),
            half <= usize::MAX / 2,
            nums@.len() % 2 == 0,
            2 * k <= nums@.len(),
            ranges@.len() == k,
            forall|t: int| 0 <= t < k ==> (#[trigger] ranges@[t]).start == nums@[2 * t] && ranges@[t].width == nums@[2 * t + 1],
        decreases nums@.len() - 2 * k,
    {
        ranges.push(SeedRange { start: nums[2 * k], width: nums[2 * k + 1] });
        k += 1;
    }
    let ghost ws = seeds_text(line@)->Some_0;
    assert(ranges@ =~= listed_ranges(ws));
    Ok(sort_ranges(&ranges))
}

/// The ranges sorted by start, stably.
pub fn sort_ranges(ranges: &Vec<SeedRange>) -> (r: Vec<SeedRange>)
    ensures
        r@ == sort_by_start(ranges@),
{
    let mut sorted: Vec<SeedRange> = Vec::new();
    let mut i: usize = 0;
    assert(ranges@.take(0) =~= Seq::<SeedRange>::empty());
    while i < ranges.len()
        invariant
            i <= ranges@.len(),
            sorted@ == sort_by_start(ranges@.take(i as int)),
        decreases ranges@.len() - i,
    {
        let x = ranges[i];
        let ghost r = sorted@;
        proof {
            lemma_first_after(r, x.start);
            lemma_sort_by_start(ranges@.take(i as int));
        }
        let mut p: usize = 0;
        while p < sorted.len() && sorted[p].start <= x.start
            invariant
                sorted@ == r,
                p <= r.len(),
                p <= first_after(r, x.start),
                0 <= first_after(r, x.start) <= r.len(),
                forall|k: int| 0 <= k < first_after(r, x.start) ==> (#[trigger] r[k]).start <= x.start,
                first_after(r, x.start) < r.len() ==> r[first_after(r, x.start)].start > x.start,
            decreases r.len() - p,
        {
            p += 1;
        }
        sorted.insert(p, x);
        assert(ranges@.take(i + 1).drop_last() =~= ranges@.take(i as int));
        assert(ranges@.take(i + 1).last() == x);
        i += 1;
    }
    assert(ranges@.take(i as int) =~= ranges@);
    sorted
}

/// Where a location came from: taken back through each mapping, the last first.
pub open spec fn unmap_all(mappings: Seq<Mapping>, pos: int) -> int
    decreases mappings.len(),
{
    if mappings.len() == 0 {
        pos
    } else {
        unmap_all(mappings.drop_last(), unmap_through(mappings.last().rules@, pos))
    }
}

pub open spec fn seeded(ranges: Seq<SeedRange>, pos: int) -> bool {
    exists|k: int| 0 <= k < ranges.len() && (#[trigger] ranges[k]).start <= pos < ranges[k].start + ranges[k].width
}

/// The furthest end of the first `n` seed ranges, 0 for none.
pub open spec fn max_end(ranges: Seq<SeedRange>, n: int) -> int
    decreases n,
{
    if n <= 0 {
        0
    } else {
        let e = ranges[n - 1].start + ranges[n - 1].width;
        let m = max_end(ranges, n - 1);
        if e > m {
            e
        } else {
            m
        }
    }
}

/// The seed a location came from.
pub fn trace_back(mappings: &Vec<Mapping>, pos: usize) -> (r: usize)
    requires
        forall|m: int| 0 <= m < mappings@.len() ==> (#[trigger] mappings@[m]).wf(),
    ensures
        r == unmap_all(mappings@, pos as int),
{
    let mut p = pos;
    let mut m: usize = mappings.len();
    assert(mappings@.take(m as int) =~= mappings@);
    while m > 0
        invariant
            forall|t: int| 0 <= t < mappings@.len() ==> (#[trigger] mappings@[t]).wf(),
            m <= mappings@.len(),
            unmap_all(mappings@, pos as int) == unmap_all(mappings@.take(m as int), p as int),
        decreases m,
    {
        assert(mappings@.take(m as int).drop_last() =~= mappings@.take(m - 1));
        assert(mappings@.take(m as int).last() == mappings@[m - 1]);
        p = mappings[m - 1].unmap(p);
        m -= 1;
    }
    assert(mappings@.take(0) =~= Seq::<Mapping>::empty());
    p
}

/// The lowest location, below the end of the furthest seed range, that some seed
/// reaches: locations are tried from 0 upward and traced back to their seeds.
pub fn lowest_seeded_location(mappings: &Vec<Mapping>, ranges: &Vec<SeedRange>) -> (r: Option<usize>)
    requires
        forall|m: int| 0 <= m < mappings@.len() ==> (#[trigger] mappings@[m]).wf(),
        forall|k: int| 0 <= k < ranges@.len() ==> (#[trigger] ranges@[k]).start + ranges@[k].width <= usize::MAX,
    ensures
        r matches Some(i) ==> seeded(ranges@, unmap_all(mappings@, i as int)) && forall|j: int|
            0 <= j < i ==> !seeded(ranges@, #[trigger] unmap_all(mappings@, j)),
        r matches Some(i) ==> i < max_end(ranges@, ranges@.len() as int),
        r is None ==> forall|j: int|
            0 <= j < max_end(ranges@, ranges@.len() as int) ==> !seeded(ranges@, #[trigger] unmap_all(mappings@, j)),
{
    let mut stop: usize = 0;
    let mut k: usize = 0;
    while k < ranges.len()
        invariant
            k <= ranges@.len(),
            forall|t: int| 0 <= t < ranges@.len() ==> (#[trigger] ranges@[t]).start + ranges@[t].width <= usize::MAX,
            stop == max_end(ranges@, k as int),
        decreases ranges@.len() - k,
    {
        let end = ranges[k].start + ranges[k].width;
        if end > stop {
            stop = end;
        }
        k += 1;
    }
    let mut i: usize = 0;
    while i < stop
        invariant
            forall|m: int| 0 <= m < mappings@.len() ==> (#[trigger] mappings@[m]).wf(),
            forall|t: int| 0 <= t < ranges@.len() ==> (#[trigger] ranges@[t]).start + ranges@[t].width <= usize::MAX,
            stop == max_end(ranges@, ranges@.len() as int),
            i <= stop,
            forall|j: int| 0 <= j < i ==> !seeded(ranges@, #[trigger] unmap_all(mappings@, j)),
        decreases stop - i,
    {
        let out = trace_back(mappings, i);
        let mut t: usize = 0;
        while t < ranges.len()
            invariant
                forall|q: int| 0 <= q < ranges@.len() ==> (#[trigger] ranges@[q]).start + ranges@[q].width <= usize::MAX,
                t <= ranges@.len(),
                forall|q: int| 0 <= q < t ==> !((#[trigger] ranges@[q]).start <= out < ranges@[q].start + ranges@[q].width),
                out == unmap_all(mappings@, i as int),
                i < stop,
                stop == max_end(ranges@, ranges@.len() as int),
                forall|j: int| 0 <= j < i ==> !seeded(ranges@, #[trigger] unmap_all(mappings@, j)),
            decreases ranges@.len() - t,
        {
            if ranges[t].contains(out) {
                assert(seeded(ranges@, unmap_all(mappings@, i as int)));
                return Some(i);
            }
            t += 1;
        }
        i += 1;
    }
    None
}

} // verus!
