use vstd::prelude::*;
use crate::text::{chars_of, trim, trimmed, split_char, split_on, parse_usize, is_unsigned, decimal, unsigned_digits};

verus! {

#[derive(Debug, Clone, Copy, PartialEq, Eq, Structural)]
pub enum SpringState {
    /// `.`
    Operational,
    /// `#`
    Damaged,
    /// `?`
    Unknown,
}

/// Why a line of the records could not be read.
#[derive(Debug, Clone, Copy, PartialEq, Eq, Structural)]
pub enum SpringError {
    /// A character that names no spring state.
    BadSpring,
    /// No damage counts after the springs.
    NoCounts,
    /// A damage count that is not an unsigned number.
    BadCount,
}

impl SpringState {
    pub open spec fn of_char(c: char) -> Option<SpringState> {
        if c == '.' {
            Some(SpringState::Operational)
        } else if c == '#' {
            Some(SpringState::Damaged)
        } else if c == '?' {
            Some(SpringState::Unknown)
        } else {
            None
        }
    }

    pub fn try_from(c: char) -> (r: Result<SpringState, SpringError>)
        ensures
            match SpringState::of_char(c) {
                Some(s) => r == Ok::<SpringState, SpringError>(s),
                None => r == Err::<SpringState, SpringError>(SpringError::BadSpring),
            },
    {
        match c {
            '.' => Ok(SpringState::Operational),
            '#' => Ok(SpringState::Damaged),
            '?' => Ok(SpringState::Unknown),
            _ => Err(SpringError::BadSpring),
        }
    }
}

/// A row of springs and the sizes of its groups of damaged springs, as recorded.
#[derive(Debug, Clone, PartialEq, Eq)]
pub struct Line {
    pub springs: Vec<SpringState>,
    pub damage_counts: Vec<usize>,
}

/// The scan of the first `n` springs: the sizes of the damaged groups closed so far,
/// and where the group still open began.
pub open spec fn scan(s: Seq<SpringState>, n: int) -> (Seq<int>, Option<int>)
    decreases n,
{
    if n <= 0 {
        (seq![], None)
    } else {
        let (found, start) = scan(s, n - 1);
        match s[n - 1] {
            SpringState::Operational => match start {
                Some(p) => (found.push(n - 1 - p), None),
                None => (found, None),
            },
            SpringState::Damaged => match start {
                Some(p) => (found, Some(p)),
                None => (found, Some(n - 1)),
            },
            SpringState::Unknown => (found, start),
        }
    }
}

/// The sizes of the groups of damaged springs, in order.
pub open spec fn damage_runs(s: Seq<SpringState>) -> Seq<int> {
    let (found, start) = scan(s, s.len() as int);
    match start {
        Some(p) => found.push(s.len() - p),
        None => found,
    }
}

pub open spec fn has_unknown(s: Seq<SpringState>) -> bool {
    exists|i: int| 0 <= i < s.len() && s[i] == SpringState::Unknown
}

/// The sizes of the damaged groups, where no spring is unknown.
pub open spec fn real_counts(s: Seq<SpringState>) -> Option<Seq<int>> {
    if has_unknown(s) {
        None
    } else {
        Some(damage_runs(s))
    }
}

pub open spec fn counts_model(v: Seq<usize>) -> Seq<int> {
    v.map_values(|c: usize| c as int)
}

/// The index of the first unknown spring, or `s.len()`.
pub open spec fn first_unknown(s: Seq<SpringState>) -> int
    decreases s.len(),
{
    if s.len() == 0 {
        0
    } else if s[0] == SpringState::Unknown {
        0
    } else {
        1 + first_unknown(s.drop_first())
    }
}

proof fn lemma_first_unknown(s: Seq<SpringState>)
    ensures
        0 <= first_unknown(s) <= s.len(),
        first_unknown(s) < s.len() ==> s[first_unknown(s)] == SpringState::Unknown,
        forall|k: int| 0 <= k < first_unknown(s) ==> s[k] != SpringState::Unknown,
    decreases s.len(),
{
    if s.len() > 0 && s[0] != SpringState::Unknown {
        lemma_first_unknown(s.drop_first());
        assert forall|k: int| 0 <= k < first_unknown(s) implies s[k] != SpringState::Unknown by {
            if k > 0 {
                assert(s[k] == s.drop_first()[k - 1]);
            }
        }
    }
}

/// The springs with the first unknown one set to `st`.
pub open spec fn set_next(s: Seq<SpringState>, st: SpringState) -> Seq<SpringState> {
    if first_unknown(s) < s.len() {
        s.update(first_unknown(s), st)
    } else {
        s
    }
}

/// Each row of `ls` twice: with its first unknown spring operational, then damaged.
pub open spec fn expand(ls: Seq<Seq<SpringState>>) -> Seq<Seq<SpringState>>
    decreases ls.len(),
{
    if ls.len() == 0 {
        seq![]
    } else {
        seq![
            set_next(ls[0], SpringState::Operational),
            set_next(ls[0], SpringState::Damaged),
        ] + expand(ls.drop_first())
    }
}

pub open spec fn rows(v: Seq<Vec<SpringState>>) -> Seq<Seq<SpringState>> {
    v.map_values(|r: Vec<SpringState>| r@)
}

/// `expand` applied `k` times.
pub open spec fn rounds(ls: Seq<Seq<SpringState>>, k: nat) -> Seq<Seq<SpringState>>
    decreases k,
{
    if k == 0 {
        ls
    } else {
        expand(rounds(ls, (k - 1) as nat))
    }
}

pub open spec fn unknown_count(s: Seq<SpringState>) -> nat
    decreases s.len(),
{
    if s.len() == 0 {
        0
    } else {
        unknown_count(s.drop_last()) + if s.last() == SpringState::Unknown {
            1nat
        } else {
            0nat
        }
    }
}

/// How many rows of `ls` have exactly the damaged groups `counts`.
pub open spec fn count_matching(ls: Seq<Seq<SpringState>>, counts: Seq<int>) -> nat
    decreases ls.len(),
{
    if ls.len() == 0 {
        0
    } else {
        count_matching(ls.drop_last(), counts) + if real_counts(ls.last()) == Some(counts) {
            1nat
        } else {
            0nat
        }
    }
}

/// The line that `springs counts` writes: the springs, one space, then the damage
/// counts separated by commas.
pub open spec fn line_text(line: Seq<char>) -> Result<(Seq<SpringState>, Seq<int>), SpringError> {
    let parts = split_on(trimmed(line), ' ');
    let sp = parts[0];
    if exists|i: int| 0 <= i < sp.len() && SpringState::of_char(#[trigger] sp[i]) is None {
        Err(SpringError::BadSpring)
    } else if parts.len() < 2 {
        Err(SpringError::NoCounts)
    } else {
        let cs = split_on(parts[1], ',');
        if exists|i: int| 0 <= i < cs.len() && !is_unsigned(#[trigger] cs[i], usize::MAX as int) {
            Err(SpringError::BadCount)
        } else {
            Ok(
                (
                    Seq::new(
                        sp.len(),
                        |i: int|
                            match SpringState::of_char(sp[i]) {
                                Some(s) => s,
                                None => SpringState::Unknown,
                            },
                    ),
                    Seq::new(cs.len(), |i: int| decimal(unsigned_digits(cs[i]))),
                ),
            )
        }
    }
}

fn copy_springs(v: &Vec<SpringState>) -> (r: Vec<SpringState>)
    ensures
        r@ == v@,
{
    let mut r: Vec<SpringState> = Vec::new();
    let mut i: usize = 0;
    while i < v.len()
        invariant
            i <= v@.len(),
            r@ == v@.take(i as int),
        decreases v@.len() - i,
    {
        r.push(v[i]);
        i += 1;
        assert(r@ =~= v@.take(i as int));
    }
    assert(r@ =~= v@);
    r
}

fn set_first_unknown(v: &Vec<SpringState>, state: SpringState) -> (r: Vec<SpringState>)
    ensures
        r@ == set_next(v@, state),
{
    proof {
        lemma_first_unknown(v@);
    }
    let mut springs = copy_springs(v);
    let mut i: usize = 0;
    while i < springs.len()
        invariant
            springs@ == v@,
            i <= v@.len(),
            i <= first_unknown(v@),
            0 <= first_unknown(v@) <= v@.len(),
            first_unknown(v@) < v@.len() ==> v@[first_unknown(v@)] == SpringState::Unknown,
            forall|k: int| 0 <= k < first_unknown(v@) ==> v@[k] != SpringState::Unknown,
        decreases v@.len() - i,
    {
        if springs[i] == SpringState::Unknown {
            springs.set(i, state);
            return springs;
        }
        i += 1;
    }
    springs
}

fn runs_of(s: &Vec<SpringState>) -> (r: Option<Vec<usize>>)
    ensures
        match real_counts(s@) {
            Some(c) => r matches Some(v) && counts_model(v@) == c,
            None => r is None,
        },
{
    let mut found: Vec<usize> = Vec::new();
    let mut start: Option<usize> = None;
    let mut i: usize = 0;
    while i < s.len()
        invariant
            i <= s@.len(),
            counts_model(found@) == scan(s@, i as int).0,
            match scan(s@, i as int).1 {
                Some(p) => start == Some(p as usize) && 0 <= p < i,
                None => start is None,
            },
            forall|k: int| 0 <= k < i ==> s@[k] != SpringState::Unknown,
        decreases s@.len() - i,
    {
        let ghost before = found@;
        match s[i] {
            SpringState::Operational => {
                if let Some(start_pos) = start {
                    found.push(i - start_pos);
                    start = None;
                }
            },
            SpringState::Damaged => {
                if start.is_none() {
                    start = Some(i);
                }
            },
            SpringState::Unknown => {
                assert(has_unknown(s@));
                return None;
            },
        }
        assert(counts_model(found@) =~= scan(s@, i + 1).0);
        i += 1;
    }
    if let Some(start_pos) = start {
        found.push(s.len() - start_pos);
    }
    assert(counts_model(found@) =~= damage_runs(s@));
    Some(found)
}

impl Line {
    pub fn new(springs: Vec<SpringState>, damage_counts: Vec<usize>) -> (r: Line)
        ensures
            r.springs == springs,
            r.damage_counts == damage_counts,
    {
        Line { springs, damage_counts }
    }

    /// Reads `springs counts`: the springs, one space, then the damage counts
    /// separated by commas.
    pub fn parse(line: &str) -> (r: Result<Line, SpringError>)
        ensures
            r matches Ok(l) ==> line_text(line@) == Ok::<(Seq<SpringState>, Seq<int>), SpringError>(
                (l.springs@, counts_model(l.damage_counts@)),
            ),
            r matches Err(e) ==> line_text(line@) == Err::<(Seq<SpringState>, Seq<int>), SpringError>(e),
    {
        let parts = split_char(trim(line), ' ');
        let ghost ps = split_on(trimmed(line@), ' ');
        assert(parts@[0]@ == ps[0]);
        let sp = chars_of(parts[0].as_str());
        let mut springs: Vec<SpringState> = Vec::new();
        let mut i: usize = 0;
        while i < sp.len()
            invariant
                ps == split_on(trimmed(line@), ' '),
                sp@ == ps[0],
                i <= sp@.len(),
                springs@.len() == i,
                forall|k: int| 0 <= k < i ==> SpringState::of_char(#[trigger] sp@[k]) == Some(springs@[k]),
            decreases sp@.len() - i,
        {
            match SpringState::try_from(sp[i]) {
                Ok(s) => {
                    springs.push(s);
                },
                Err(e) => {
                    assert(SpringState::of_char(sp@[i as int]) is None);
                    return Err(e);
                },
            }
            i += 1;
        }
        if parts.len() < 2 {
            assert(!(exists|i: int| 0 <= i < ps[0].len() && SpringState::of_char(#[trigger] ps[0][i]) is None));
            return Err(SpringError::NoCounts);
        }
        assert(parts@[1]@ == ps[1]);
        let pieces = split_char(parts[1].as_str(), ',');
        let ghost cs = split_on(ps[1], ',');
        let mut counts: Vec<usize> = Vec::new();
        let mut j: usize = 0;
        while j < pieces.len()
            invariant
                ps == split_on(trimmed(line@), ' '),
                ps.len() >= 2,
                cs == split_on(ps[1], ','),
                sp@ == ps[0],
                forall|k: int| 0 <= k < sp@.len() ==> SpringState::of_char(#[trigger] sp@[k]) == Some(springs@[k]),
                springs@.len() == sp@.len(),
                pieces@.map_values(|p: String| p@) == cs,
                j <= cs.len(),
                counts@.len() == j,
                forall|k: int| 0 <= k < j ==> is_unsigned(#[trigger] cs[k], usize::MAX as int),
                forall|k: int| 0 <= k < j ==> counts@[k] == decimal(unsigned_digits(#[trigger] cs[k])),
            decreases pieces@.len() - j,
        {
            assert(pieces@[j as int]@ == cs[j as int]);
            match parse_usize(pieces[j].as_str()) {
                Some(v) => {
                    counts.push(v);
                },
                None => {
                    assert(!is_unsigned(cs[j as int], usize::MAX as int));
                    assert(!(exists|i: int| 0 <= i < ps[0].len() && SpringState::of_char(#[trigger] ps[0][i]) is None));
                    return Err(SpringError::BadCount);
                },
            }
            j += 1;
        }
        let ghost model = line_text(line@);
        assert(springs@ =~= Seq::new(
            sp@.len(),
            |i: int|
                match SpringState::of_char(sp@[i]) {
                    Some(s) => s,
                    None => SpringState::Unknown,
                },
        ));
        assert(counts_model(counts@) =~= Seq::new(cs.len(), |i: int| decimal(unsigned_digits(cs[i]))));
        Ok(Line::new(springs, counts))
    }

    /// The sizes of the damaged groups, or `None` while a spring is unknown.
    pub fn get_real_damage_counts(&self) -> (r: Option<Vec<usize>>)
        ensures
            match real_counts(self.springs@) {
                Some(c) => r matches Some(v) && counts_model(v@) == c,
                None => r is None,
            },
    {
        runs_of(&self.springs)
    }

    /// Whether this line's springs, all known, form the groups that `other` records;
    /// `None` while a spring is unknown.
    pub fn matches(&self, other: &Line) -> (r: Option<bool>)
        ensures
            match real_counts(self.springs@) {
                Some(c) => r == Some(c == counts_model(other.damage_counts@)),
                None => r is None,
            },
    {
        let found = match self.get_real_damage_counts() {
            Some(v) => v,
            None => {
                return None;
            },
        };
        Some(same_counts(&found, &other.damage_counts))
    }

    /// This line with its first unknown spring set to `state`.
    pub fn with_set_next_spring(&self, state: SpringState) -> (r: Line)
        ensures
            r.springs@ == set_next(self.springs@, state),
            r.damage_counts@ == self.damage_counts@,
    {
        let springs = set_first_unknown(&self.springs, state);
        let damage_counts = self.damage_counts.clone();
        assert(damage_counts@ =~= self.damage_counts@);
        Line { springs, damage_counts }
    }

    /// How many ways of setting the unknown springs give the recorded groups: each
    /// unknown spring is set both ways in turn, and the rows that come out are
    /// checked against the record.
    pub fn arrangement_count(&self) -> (r: usize)
        ensures
            r == count_matching(
                rounds(seq![self.springs@], unknown_count(self.springs@)),
                counts_model(self.damage_counts@),
            ),
    {
        let mut n_spaces: usize = 0;
        let mut i: usize = 0;
        while i < self.springs.len()
            invariant
                i <= self.springs@.len(),
                n_spaces == unknown_count(self.springs@.take(i as int)),
                n_spaces <= i,
            decreases self.springs@.len() - i,
        {
            assert(self.springs@.take(i + 1).drop_last() =~= self.springs@.take(i as int));
            if self.springs[i] == SpringState::Unknown {
                n_spaces += 1;
            }
            i += 1;
        }
        assert(self.springs@.take(i as int) =~= self.springs@);
        let mut routes: Vec<Vec<SpringState>> = vec![copy_springs(&self.springs)];
        assert(rows(routes@) =~= seq![self.springs@]);
        let mut k: usize = 0;
        while k < n_spaces
            invariant
                k <= n_spaces,
                rows(routes@) == rounds(seq![self.springs@], k as nat),
            decreases n_spaces - k,
        {
            let mut next: Vec<Vec<SpringState>> = Vec::new();
            let mut j: usize = 0;
            let ghost ls = rows(routes@);
            assert(ls.skip(0) =~= ls);
            assert(expand(ls) =~= Seq::<Seq<SpringState>>::empty() + expand(ls.skip(0)));
            while j < routes.len()
                invariant
                    ls == rows(routes@),
                    j <= ls.len(),
                    rows(next@) + expand(ls.skip(j as int)) == expand(ls),
                decreases ls.len() - j,
            {
                let ghost before = rows(next@);
                next.push(set_first_unknown(&routes[j], SpringState::Operational));
                next.push(set_first_unknown(&routes[j], SpringState::Damaged));
                assert(ls.skip(j as int).drop_first() =~= ls.skip(j + 1));
                assert(ls.skip(j as int)[0] == ls[j as int]);
                assert(rows(next@) + expand(ls.skip(j + 1)) =~= before + expand(ls.skip(j as int)));
                j += 1;
            }
            assert(ls.skip(j as int) =~= Seq::<Seq<SpringState>>::empty());
            assert(rows(next@) =~= expand(ls));
            routes = next;
            k += 1;
        }
        let mut count: usize = 0;
        let mut j: usize = 0;
        while j < routes.len()
            invariant
                j <= rows(routes@).len(),
                count == count_matching(rows(routes@).take(j as int), counts_model(self.damage_counts@)),
                count <= j,
            decreases rows(routes@).len() - j,
        {
            assert(rows(routes@).take(j + 1).drop_last() =~= rows(routes@).take(j as int));
            let m = match runs_of(&routes[j]) {
                Some(v) => same_counts(&v, &self.damage_counts),
                None => false,
            };
            if m {
                count += 1;
            }
            j += 1;
        }
        assert(rows(routes@).take(j as int) =~= rows(routes@));
        count
    }
}

fn same_counts(a: &Vec<usize>, b: &Vec<usize>) -> (r: bool)
    ensures
        r == (counts_model(a@) == counts_model(b@)),
{
    if a.len() != b.len() {
        assert(counts_model(a@).len() != counts_model(b@).len());
        return false;
    }
    let mut i: usize = 0;
    while i < a.len()
        invariant
            a@.len() == b@.len(),
            i <= a@.len(),
            forall|k: int| 0 <= k < i ==> a@[k] == b@[k],
        decreases a@.len() - i,
    {
        if a[i] != b[i] {
            assert(counts_model(a@)[i as int] != counts_model(b@)[i as int]);
            return false;
        }
        i += 1;
    }
    assert(counts_model(a@) =~= counts_model(b@));
    true
}

} // verus!
