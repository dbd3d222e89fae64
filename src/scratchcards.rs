use vstd::prelude::*;
use crate::cubes::digit_run_end;
use crate::text::{is_white_space, split_words, words, parse_all_usize, is_unsigned, decimal, unsigned_digits, find_char};

verus! {

/// The end of the run of white space that starts at `i`.
pub open spec fn space_run_end(s: Seq<char>, i: int) -> int
    decreases s.len() - i,
{
    if 0 <= i < s.len() && is_white_space(s[i]) {
        space_run_end(s, i + 1)
    } else {
        i
    }
}

pub open spec fn number_chars(s: Seq<char>) -> bool {
    forall|t: int| 0 <= t < s.len() ==> (#[trigger] s[t] == ' ' || ('0' <= s[t] && s[t] <= '9'))
}

/// The card number, the winning numbers and the numbers held, as the text of a line
/// `Card <n>: <numbers> | <numbers>` gives them.
pub open spec fn card_groups(s: Seq<char>) -> Option<(Seq<char>, Seq<char>, Seq<char>)> {
    let j = space_run_end(s, 4);
    let k = digit_run_end(s, j);
    let p = find_char(s, '|');
    if s.len() >= 4 && s.take(4) == seq!['C', 'a', 'r', 'd'] && j > 4 && k > j && k + 2 <= s.len()
        && s[k] == ':' && s[k + 1] == ' ' && k + 3 < p && p + 2 < s.len() && s[p - 1] == ' '
        && s[p + 1] == ' ' && number_chars(s.subrange(k + 2, p - 1)) && number_chars(s.skip(p + 2)) {
        Some((s.subrange(j, k), s.subrange(k + 2, p - 1), s.skip(p + 2)))
    } else {
        None
    }
}

/// Relies on `regex::Regex::captures`: the three capture groups of
/// `^Card\s+([0-9]+): ([0-9 ]+) \| ([0-9 ]+)$`, where `\s` is any character with the
/// Unicode `White_Space` property.
#[verifier::external_body]
fn card_captures(line: &str) -> (r: Option<(String, String, String)>)
    ensures
        match card_groups(line@) {
            Some((a, b, c)) => r matches Some((x, y, z)) && x@ == a && y@ == b && z@ == c,
            None => r is None,
        },
{
    let re = regex::Regex::new(r"^Card\s+([0-9]+): ([0-9 ]+) \| ([0-9 ]+)$").unwrap();
    match re.captures(line) {
        Some(caps) => match (caps.get(1), caps.get(2), caps.get(3)) {
            (Some(a), Some(b), Some(c)) => Some(
                (a.as_str().to_string(), b.as_str().to_string(), c.as_str().to_string()),
            ),
            _ => None,
        },
        None => None,
    }
}

/// Why a card could not be read.
#[derive(Debug, Clone, Copy, PartialEq, Eq, Structural)]
pub enum CardError {
    /// A line that does not read `Card <n>: <numbers> | <numbers>`.
    InvalidLine,
    /// A number too large for `usize`.
    BadNumber,
}

/// A scratchcard: its number, its winning numbers and the numbers held, as listed.
#[derive(Debug, Clone, PartialEq, Eq)]
pub struct Card {
    pub id: usize,
    pub winning_numbers: Vec<usize>,
    pub my_numbers: Vec<usize>,
}

pub open spec fn all_fit(ws: Seq<Seq<char>>) -> bool {
    forall|i: int| 0 <= i < ws.len() ==> is_unsigned(#[trigger] ws[i], usize::MAX as int)
}

pub open spec fn values_of(ws: Seq<Seq<char>>) -> Seq<int> {
    ws.map_values(|w: Seq<char>| decimal(unsigned_digits(w)))
}

/// How many distinct numbers among the first `n` winning ones are held.
pub open spec fn distinct_hits(w: Seq<usize>, m: Seq<usize>, n: int) -> int
    decreases n,
{
    if n <= 0 {
        0
    } else {
        distinct_hits(w, m, n - 1) + if m.contains(w[n - 1]) && !w.take(n - 1).contains(w[n - 1]) {
            1int
        } else {
            0int
        }
    }
}

fn contains_usize(v: &Vec<usize>, x: usize, upto: usize) -> (r: bool)
    requires
        upto <= v@.len(),
    ensures
        r == v@.take(upto as int).contains(x),
{
    let mut i: usize = 0;
    while i < upto
        invariant
            upto <= v@.len(),
            i <= upto,
            forall|k: int| 0 <= k < i ==> v@[k] != x,
        decreases upto - i,
    {
        if v[i] == x {
            assert(v@.take(upto as int)[i as int] == x);
            return true;
        }
        i += 1;
    }
    assert forall|k: int| 0 <= k < upto implies v@.take(upto as int)[k] != x by {
        assert(v@.take(upto as int)[k] == v@[k]);
    }
    false
}

impl Card {
    /// Reads `Card <n>: <winning numbers> | <numbers held>`.
    pub fn parse(line: &str) -> (r: Result<Card, CardError>)
        ensures
            match card_groups(line@) {
                None => r == Err::<Card, CardError>(CardError::InvalidLine),
                Some((id, w, m)) => if is_unsigned(id, usize::MAX as int) && all_fit(words(w))
                    && all_fit(words(m)) {
                    r matches Ok(c) && c.id == decimal(unsigned_digits(id)) && c.winning_numbers@.map_values(
                        |x: usize| x as int,
                    ) == values_of(words(w)) && c.my_numbers@.map_values(|x: usize| x as int)
                        == values_of(words(m))
                } else {
                    r == Err::<Card, CardError>(CardError::BadNumber)
                },
            },
    {
        let (id_text, w_text, m_text) = match card_captures(line) {
            Some(g) => g,
            None => {
                return Err(CardError::InvalidLine);
            },
        };
        let id = match crate::text::parse_usize(id_text.as_str()) {
            Some(v) => v,
            None => {
                return Err(CardError::BadNumber);
            },
        };
        let w_words = split_words(w_text.as_str());
        let m_words = split_words(m_text.as_str());
        let winning_numbers = match parse_all_usize(&w_words) {
            Some(v) => v,
            None => {
                proof {
                    let k = choose|k: int| 0 <= k < w_words@.len() && !is_unsigned(#[trigger] w_words@[k]@, usize::MAX as int);
                    assert(words(w_text@)[k] == w_words@[k]@);
                }
                return Err(CardError::BadNumber);
            },
        };
        let my_numbers = match parse_all_usize(&m_words) {
            Some(v) => v,
            None => {
                proof {
                    let k = choose|k: int| 0 <= k < m_words@.len() && !is_unsigned(#[trigger] m_words@[k]@, usize::MAX as int);
                    assert(words(m_text@)[k] == m_words@[k]@);
                }
                return Err(CardError::BadNumber);
            },
        };
        proof {
            assert forall|i: int| 0 <= i < words(w_text@).len() implies is_unsigned(#[trigger] words(w_text@)[i], usize::MAX as int) by {
                assert(words(w_text@)[i] == w_words@[i]@);
            }
            assert forall|i: int| 0 <= i < words(m_text@).len() implies is_unsigned(#[trigger] words(m_text@)[i], usize::MAX as int) by {
                assert(words(m_text@)[i] == m_words@[i]@);
            }
            assert(winning_numbers@.map_values(|x: usize| x as int) =~= values_of(words(w_text@))) by {
                assert forall|i: int| 0 <= i < winning_numbers@.len() implies winning_numbers@[i] as int == values_of(words(w_text@))[i] by {
                    assert(words(w_text@)[i] == w_words@[i]@);
                }
            }
            assert(my_numbers@.map_values(|x: usize| x as int) =~= values_of(words(m_text@))) by {
                assert forall|i: int| 0 <= i < my_numbers@.len() implies my_numbers@[i] as int == values_of(words(m_text@))[i] by {
                    assert(words(m_text@)[i] == m_words@[i]@);
                }
            }
        }
        Ok(Card { id, winning_numbers, my_numbers })
    }

    /// How many distinct winning numbers are held.
    pub fn matches(&self) -> (r: usize)
        ensures
            r == distinct_hits(self.winning_numbers@, self.my_numbers@, self.winning_numbers@.len() as int),
    {
        let w = &self.winning_numbers;
        let m = &self.my_numbers;
        let mut count: usize = 0;
        let mut i: usize = 0;
        while i < w.len()
            invariant
                w == &self.winning_numbers,
                m == &self.my_numbers,
                i <= w@.len(),
                count == distinct_hits(w@, m@, i as int),
                count <= i,
            decreases w@.len() - i,
        {
            let x = w[i];
            let held = contains_usize(m, x, m.len());
            assert(m@.take(m@.len() as int) =~= m@);
            let seen = contains_usize(w, x, i);
            if held && !seen {
                count += 1;
            }
            i += 1;
        }
        count
    }

    /// The card's points: 0 without a match, else 1 doubled for each match after the
    /// first.
    pub fn score(&self) -> (r: usize)
        requires
            distinct_hits(self.winning_numbers@, self.my_numbers@, self.winning_numbers@.len() as int)
                == 0 || vstd::arithmetic::power2::pow2((distinct_hits(self.winning_numbers@, self.my_numbers@, self.winning_numbers@.len() as int) - 1) as nat) <= usize::MAX,
        ensures
            ({
                let c = distinct_hits(self.winning_numbers@, self.my_numbers@, self.winning_numbers@.len() as int);
                r == if c == 0 {
                    0
                } else {
                    vstd::arithmetic::power2::pow2((c - 1) as nat)
                }
            }),
    {
        let count = self.matches();
        if count == 0 {
            return 0;
        }
        proof {
            vstd::arithmetic::power2::lemma2_to64();
        }
        let mut p: usize = 1;
        let mut k: usize = 1;
        while k < count
            invariant
                1 <= k <= count,
                p == vstd::arithmetic::power2::pow2((k - 1) as nat),
                vstd::arithmetic::power2::pow2((count - 1) as nat) <= usize::MAX,
            decreases count - k,
        {
            proof {
                vstd::arithmetic::power2::lemma_pow2_unfold(k as nat);
                if k < count - 1 {
                    vstd::arithmetic::power2::lemma_pow2_strictly_increases(k as nat, (count - 1) as nat);
                }
            }
            p = p * 2;
            k += 1;
        }
        p
    }
}


/// How many copies of each card there are once the first `i` cards have been
/// scored: each starts as one, and card `c` with `m` matches adds its copies to each
/// of the `m` cards after it.
pub open spec fn copies_after(wins: Seq<usize>, i: int) -> Seq<int>
    decreases i,
{
    if i <= 0 {
        Seq::new(wins.len(), |k: int| 1int)
    } else {
        let c = copies_after(wins, i - 1);
        Seq::new(
            wins.len(),
            |k: int|
                if i - 1 < k <= i - 1 + wins[i - 1] {
                    c[k] + c[i - 1]
                } else {
                    c[k]
                },
        )
    }
}

pub open spec fn seq_sum(s: Seq<int>, n: int) -> int
    decreases n,
{
    if n <= 0 {
        0
    } else {
        seq_sum(s, n - 1) + s[n - 1]
    }
}

proof fn lemma_copies_pos(wins: Seq<usize>, i: int)
    ensures
        copies_after(wins, i).len() == wins.len(),
        forall|k: int| 0 <= k < wins.len() ==> #[trigger] copies_after(wins, i)[k] >= 1,
    decreases i,
{
    if i > 0 {
        lemma_copies_pos(wins, i - 1);
    }
}

proof fn lemma_copies_grow(wins: Seq<usize>, i: int, j: int)
    requires
        0 <= i <= j,
    ensures
        copies_after(wins, i).len() == wins.len(),
        copies_after(wins, j).len() == wins.len(),
        forall|k: int| 0 <= k < wins.len() ==> 1 <= #[trigger] copies_after(wins, i)[k] <= copies_after(wins, j)[k],
    decreases j,
{
    lemma_copies_pos(wins, i);
    lemma_copies_pos(wins, j);
    if i < j {
        lemma_copies_grow(wins, i, j - 1);
        lemma_copies_pos(wins, j - 1);
        if 0 <= j - 1 < wins.len() {
            assert(copies_after(wins, j - 1)[j - 1] >= 1);
        }
        assert forall|k: int| 0 <= k < wins.len() implies copies_after(wins, j - 1)[k] <= #[trigger] copies_after(wins, j)[k] by {
        }
    }
}

proof fn lemma_sum_nonneg(s: Seq<int>, n: int)
    requires
        n <= s.len(),
        forall|k: int| 0 <= k < s.len() ==> s[k] >= 0,
    ensures
        seq_sum(s, n) >= 0,
    decreases n,
{
    if n > 0 {
        lemma_sum_nonneg(s, n - 1);
    }
}

proof fn lemma_sum_grows(s: Seq<int>, n: int, m: int)
    requires
        0 <= n <= m <= s.len(),
        forall|k: int| 0 <= k < s.len() ==> s[k] >= 0,
    ensures
        0 <= seq_sum(s, n) <= seq_sum(s, m),
    decreases m,
{
    if n < m {
        lemma_sum_grows(s, n, m - 1);
    } else {
        lemma_sum_nonneg(s, n);
    }
}

/// The number of cards held in the end: every card's copies, counted once all cards
/// have been scored, given each card's number of matches; `None` where that number
/// is too large for `usize`.
pub fn total_cards(wins: &Vec<usize>) -> (r: Option<usize>)
    requires
        forall|i: int| 0 <= i < wins@.len() ==> i + #[trigger] wins@[i] < wins@.len(),
    ensures
        ({
            let total = seq_sum(copies_after(wins@, wins@.len() as int), wins@.len() as int);
            &&& total <= usize::MAX ==> r == Some(total as usize)
            &&& total > usize::MAX ==> r is None
        }),
{
    let n = wins.len();
    let ghost fin = copies_after(wins@, n as int);
    proof {
        lemma_copies_pos(wins@, n as int);
        lemma_sum_grows(fin, 0, n as int);
        assert forall|k: int| 0 <= k < n implies fin[k] <= seq_sum(fin, n as int) by {
            lemma_sum_grows(fin, k, k + 1);
            lemma_sum_grows(fin, k + 1, n as int);
        }
    }
    let mut counts: Vec<usize> = Vec::new();
    let mut k: usize = 0;
    while k < n
        invariant
            n == wins@.len(),
            k <= n,
            counts@.len() == k,
            forall|t: int| 0 <= t < k ==> counts@[t] == 1,
        decreases n - k,
    {
        counts.push(1);
        k += 1;
    }
    assert(counts@.map_values(|c: usize| c as int) =~= copies_after(wins@, 0));
    let mut i: usize = 0;
    while i < n
        invariant
            n == wins@.len(),
            fin == copies_after(wins@, n as int),
            forall|t: int| 0 <= t < n ==> fin[t] <= seq_sum(fin, n as int),
            forall|t: int| 0 <= t < n ==> t + #[trigger] wins@[t] < n,
            i <= n,
            counts@.len() == n,
            counts@.map_values(|c: usize| c as int) == copies_after(wins@, i as int),
        decreases n - i,
    {
        let ghost before = copies_after(wins@, i as int);
        proof {
            lemma_copies_grow(wins@, i + 1, n as int);
        }
        let here = counts[i];
        assert(counts@.map_values(|c: usize| c as int)[i as int] == before[i as int]);
        assert(here as int == before[i as int]);
        let m = wins[i];
        let mut j: usize = 1;
        while j <= m
            invariant
                n == wins@.len(),
                fin == copies_after(wins@, n as int),
                forall|t: int| 0 <= t < n ==> fin[t] <= seq_sum(fin, n as int),
                i < n,
                i + m < n,
                m == wins@[i as int],
                1 <= j <= m + 1,
                here as int == before[i as int],
                before == copies_after(wins@, i as int),
                counts@.len() == n,
                forall|t: int| 0 <= t < n ==> counts@[t] as int == if i < t < i + j { before[t] + before[i as int] } else { before[t] },
                forall|t: int| 0 <= t < n ==> copies_after(wins@, i + 1)[t] <= fin[t],
            decreases m + 1 - j,
        {
            let t = i + j;
            assert(copies_after(wins@, i + 1)[t as int] == before[t as int] + before[i as int]);
            assert(counts@[t as int] as int == before[t as int]);
            assert(copies_after(wins@, i + 1)[t as int] <= fin[t as int]);
            assert(fin[t as int] <= seq_sum(fin, n as int));
            if counts[t] > usize::MAX - here {
                return None;
            }
            counts.set(t, counts[t] + here);
            j += 1;
        }
        assert(counts@.map_values(|c: usize| c as int) =~= copies_after(wins@, i + 1));
        i += 1;
    }
    let mut total: usize = 0;
    let mut k: usize = 0;
    while k < n
        invariant
            n == wins@.len(),
            fin == copies_after(wins@, n as int),
            counts@.len() == n,
            counts@.map_values(|c: usize| c as int) == fin,
            forall|t: int| 0 <= t < n ==> fin[t] >= 1,
            k <= n,
            total == seq_sum(fin, k as int),
        decreases n - k,
    {
        proof {
            lemma_sum_grows(fin, k + 1, n as int);
        }
        assert(counts@.map_values(|c: usize| c as int)[k as int] == fin[k as int]);
        if total > usize::MAX - counts[k] {
            return None;
        }
        total = total + counts[k];
        k += 1;
    }
    Some(total)
}

} // verus!
