use vstd::prelude::*;
use crate::text::{split_char, split_on, trim, trimmed, split_words, words, parse_usize, is_unsigned, decimal, unsigned_digits};

verus! {

/// A race: its length in milliseconds and the record distance.
#[derive(Debug, Clone, Copy, PartialEq, Eq, Structural)]
pub struct RaceInfo {
    pub time: usize,
    pub record: usize,
}

/// No way of holding the button beats the record.
#[derive(Debug, Clone, Copy, PartialEq, Eq, Structural)]
pub struct NoWinner;

/// The distance the boat goes when the button is held `charge` of `total`
/// milliseconds: speed `charge` for the time that is left.
pub open spec fn race_dist(charge: int, total: int) -> int {
    charge * if total > charge {
        total - charge
    } else {
        0
    }
}

/// Holding the button `charge` milliseconds beats the record.
pub open spec fn wins(ri: RaceInfo, charge: int) -> bool {
    race_dist(charge, ri.time as int) > ri.record
}

proof fn lemma_dist_bound(charge: int, total: int)
    requires
        0 <= charge <= total,
    ensures
        0 <= race_dist(charge, total) <= total * total,
{
    assert(0 <= charge * (total - charge) <= total * total) by (nonlinear_arith)
        requires
            0 <= charge <= total,
    ;
}

pub fn get_dist(charge_time: usize, total_time: usize) -> (r: usize)
    requires
        race_dist(charge_time as int, total_time as int) <= usize::MAX,
    ensures
        r == race_dist(charge_time as int, total_time as int),
{
    let rem = if total_time > charge_time {
        total_time - charge_time
    } else {
        0
    };
    charge_time * rem
}

/// The shortest winning hold, from 1 up to the race's length.
pub fn get_first_winner(ri: &RaceInfo) -> (r: Result<usize, NoWinner>)
    requires
        ri.time * ri.time <= usize::MAX,
    ensures
        r matches Ok(i) ==> 1 <= i <= ri.time && wins(*ri, i as int) && forall|j: int|
            1 <= j < i ==> !wins(*ri, j),
        r is Err <==> forall|j: int| 1 <= j <= ri.time ==> !wins(*ri, j),
{
    let mut i: usize = 1;
    while i <= ri.time
        invariant
            1 <= i <= ri.time + 1,
            ri.time * ri.time <= usize::MAX,
            forall|j: int| 1 <= j < i ==> !wins(*ri, j),
        decreases ri.time + 1 - i,
    {
        proof {
            lemma_dist_bound(i as int, ri.time as int);
        }
        let dist = get_dist(i, ri.time);
        if dist > ri.record {
            assert(wins(*ri, i as int));
            return Ok(i);
        }
        assert(ri.time < usize::MAX) by (nonlinear_arith)
            requires
                ri.time * ri.time <= usize::MAX,
                ri.time >= 1,
                usize::MAX > 1,
        ;
        i += 1;
    }
    Err(NoWinner)
}

/// The longest winning hold, from the race's length down to 1.
pub fn get_last_winner(ri: &RaceInfo) -> (r: Result<usize, NoWinner>)
    requires
        ri.time * ri.time <= usize::MAX,
    ensures
        r matches Ok(i) ==> 1 <= i <= ri.time && wins(*ri, i as int) && forall|j: int|
            i < j <= ri.time ==> !wins(*ri, j),
        r is Err <==> forall|j: int| 1 <= j <= ri.time ==> !wins(*ri, j),
{
    let mut i: usize = ri.time;
    while i >= 1
        invariant
            i <= ri.time,
            ri.time * ri.time <= usize::MAX,
            forall|j: int| i < j <= ri.time ==> !wins(*ri, j),
        decreases i,
    {
        proof {
            lemma_dist_bound(i as int, ri.time as int);
        }
        let dist = get_dist(i, ri.time);
        if dist > ri.record {
            assert(wins(*ri, i as int));
            return Ok(i);
        }
        i -= 1;
    }
    Err(NoWinner)
}

/// How many holds lie from the shortest winning one to the longest, both counted.
pub fn get_win_margin(ri: &RaceInfo) -> (r: Result<usize, NoWinner>)
    requires
        ri.time * ri.time <= usize::MAX,
    ensures
        r is Err <==> forall|j: int| 1 <= j <= ri.time ==> !wins(*ri, j),
        r matches Ok(m) ==> exists|first: int, last: int|
            1 <= first <= last <= ri.time && wins(*ri, first) && wins(*ri, last) && (forall|j: int|
                1 <= j < first ==> !wins(*ri, j)) && (forall|j: int|
                last < j <= ri.time ==> !wins(*ri, j)) && m == last - first + 1,
{
    let first = match get_first_winner(ri) {
        Ok(f) => f,
        Err(e) => {
            return Err(e);
        },
    };
    let last = match get_last_winner(ri) {
        Ok(l) => l,
        Err(e) => {
            return Err(e);
        },
    };
    if last < first {
        assert(!wins(*ri, last as int));
    }
    Ok(last - first + 1)
}


/// Why the race sheet could not be read.
#[derive(Debug, Clone, Copy, PartialEq, Eq, Structural)]
pub enum RaceError {
    /// Fewer than two lines.
    MissingLine,
    /// A line without a `:`.
    MissingField,
    /// A value that is not an unsigned number.
    BadNumber,
}

/// What follows the label of a line: the text between its first and second `:`.
pub open spec fn field_of(line: Seq<char>) -> Option<Seq<char>> {
    let parts = split_on(line, ':');
    if parts.len() < 2 {
        None
    } else {
        Some(parts[1])
    }
}

/// The numbers of a line `Label: n n n`.
pub open spec fn numbers_of(line: Seq<char>) -> Result<Seq<int>, RaceError> {
    match field_of(line) {
        None => Err(RaceError::MissingField),
        Some(f) => {
            let ws = words(trimmed(f));
            if forall|i: int| 0 <= i < ws.len() ==> is_unsigned(#[trigger] ws[i], usize::MAX as int) {
                Ok(Seq::new(ws.len(), |i: int| decimal(unsigned_digits(ws[i]))))
            } else {
                Err(RaceError::BadNumber)
            }
        },
    }
}

/// The races of a sheet: times on the first line, records on the second, paired in
/// order as far as both go.
pub open spec fn races_of(lines: Seq<Seq<char>>) -> Result<Seq<(int, int)>, RaceError> {
    if lines.len() < 1 {
        Err(RaceError::MissingLine)
    } else {
        match numbers_of(lines[0]) {
            Err(e) => Err(e),
            Ok(times) => if lines.len() < 2 {
                Err(RaceError::MissingLine)
            } else {
                match numbers_of(lines[1]) {
                    Err(e) => Err(e),
                    Ok(records) => Ok(
                        Seq::new(
                            if times.len() <= records.len() {
                                times.len()
                            } else {
                                records.len()
                            },
                            |i: int| (times[i], records[i]),
                        ),
                    ),
                }
            },
        }
    }
}

/// The numbers of one line of the sheet.
pub fn parse_numbers(line: &str) -> (r: Result<Vec<usize>, RaceError>)
    ensures
        match numbers_of(line@) {
            Ok(ns) => r matches Ok(v) && v@.len() == ns.len() && forall|i: int| 0 <= i < ns.len() ==> v@[i] == #[trigger] ns[i],
            Err(e) => r == Err::<Vec<usize>, RaceError>(e),
        },
{
    let parts = split_char(line, ':');
    if parts.len() < 2 {
        return Err(RaceError::MissingField);
    }
    assert(parts@[1]@ == split_on(line@, ':')[1]);
    let ws = split_words(trim(parts[1].as_str()));
    let ghost wm = words(trimmed(split_on(line@, ':')[1]));
    let mut nums: Vec<usize> = Vec::new();
    let mut i: usize = 0;
    while i < ws.len()
        invariant
            wm == words(trimmed(split_on(line@, ':')[1])),
            split_on(line@, ':').len() >= 2,
            ws@.map_values(|w: String| w@) == wm,
            i <= ws@.len(),
            nums@.len() == i,
            forall|k: int| 0 <= k < i ==> is_unsigned(#[trigger] wm[k], usize::MAX as int),
            forall|k: int| 0 <= k < i ==> nums@[k] == decimal(unsigned_digits(#[trigger] wm[k])),
        decreases ws@.len() - i,
    {
        assert(ws@[i as int]@ == wm[i as int]);
        match parse_usize(ws[i].as_str()) {
            Some(v) => {
                nums.push(v);
            },
            None => {
                return Err(RaceError::BadNumber);
            },
        }
        i += 1;
    }
    Ok(nums)
}

/// Reads the sheet: times on the first line, records on the second.
pub fn parse_input(lines: &Vec<String>) -> (r: Result<Vec<RaceInfo>, RaceError>)
    ensures
        match races_of(lines@.map_values(|l: String| l@)) {
            Ok(rs) => r matches Ok(v) && v@.len() == rs.len() && forall|i: int|
                0 <= i < rs.len() ==> (v@[i].time as int, v@[i].record as int) == #[trigger] rs[i],
            Err(e) => r == Err::<Vec<RaceInfo>, RaceError>(e),
        },
{
    let ghost ls = lines@.map_values(|l: String| l@);
    if lines.len() < 1 {
        return Err(RaceError::MissingLine);
    }
    assert(ls[0] == lines@[0]@);
    let times = parse_numbers(lines[0].as_str())?;
    if lines.len() < 2 {
        return Err(RaceError::MissingLine);
    }
    assert(ls[1] == lines@[1]@);
    let records = parse_numbers(lines[1].as_str())?;
    let mut races: Vec<RaceInfo> = Vec::new();
    let mut i: usize = 0;
    while i < times.len() && i < records.len()
        invariant
            i <= times@.len(),
            i <= records@.len(),
            races@.len() == i,
            forall|k: int| 0 <= k < i ==> (#[trigger] races@[k]).time == times@[k] && races@[k].record == records@[k],
        decreases times@.len() - i,
    {
        races.push(RaceInfo { time: times[i], record: records[i] });
        i += 1;
    }
    Ok(races)
}


/// The product of the first `n` margins.
pub open spec fn product_of(ms: Seq<usize>, n: int) -> int
    decreases n,
{
    if n <= 0 {
        1
    } else {
        product_of(ms, n - 1) * ms[n - 1]
    }
}

proof fn lemma_product_grows(ms: Seq<usize>, i: int, j: int)
    requires
        0 <= i <= j <= ms.len(),
        forall|k: int| 0 <= k < ms.len() ==> #[trigger] ms[k] >= 1,
    ensures
        1 <= product_of(ms, i) <= product_of(ms, j),
    decreases j,
{
    if i < j {
        lemma_product_grows(ms, i, j - 1);
        let p = product_of(ms, j - 1);
        assert(p <= p * ms[j - 1]) by (nonlinear_arith)
            requires
                p >= 1,
                ms[j - 1] >= 1,
        ;
    } else {
        lemma_product_pos(ms, i);
    }
}

proof fn lemma_product_pos(ms: Seq<usize>, n: int)
    requires
        0 <= n <= ms.len(),
        forall|k: int| 0 <= k < ms.len() ==> #[trigger] ms[k] >= 1,
    ensures
        product_of(ms, n) >= 1,
    decreases n,
{
    if n > 0 {
        lemma_product_pos(ms, n - 1);
        let p = product_of(ms, n - 1);
        assert(p * ms[n - 1] >= 1) by (nonlinear_arith)
            requires
                p >= 1,
                ms[n - 1] >= 1,
        ;
    }
}

/// The product of the races' margins; `None` where it is too large for `usize`.
/// Every margin counts at least one way to win.
pub fn margin_product(margins: &Vec<usize>) -> (r: Option<usize>)
    requires
        forall|k: int| 0 <= k < margins@.len() ==> #[trigger] margins@[k] >= 1,
    ensures
        product_of(margins@, margins@.len() as int) <= usize::MAX ==> r == Some(
            product_of(margins@, margins@.len() as int) as usize,
        ),
        product_of(margins@, margins@.len() as int) > usize::MAX ==> r is None,
{
    let mut acc: usize = 1;
    let mut i: usize = 0;
    while i < margins.len()
        invariant
            forall|k: int| 0 <= k < margins@.len() ==> #[trigger] margins@[k] >= 1,
            i <= margins@.len(),
            acc == product_of(margins@, i as int),
        decreases margins@.len() - i,
    {
        match acc.checked_mul(margins[i]) {
            Some(v) => {
                acc = v;
            },
            None => {
                proof {
                    lemma_product_grows(margins@, i + 1, margins@.len() as int);
                }
                return None;
            },
        }
        i += 1;
    }
    Some(acc)
}

} // verus!
