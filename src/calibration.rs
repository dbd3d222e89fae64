use vstd::prelude::*;
use crate::text::{chars_of, is_digit, digit_value};

verus! {

/// Why a calibration value could not be read.
#[derive(Debug, Clone, Copy, PartialEq, Eq, Structural)]
pub enum CalibrationError {
    /// A line without a digit.
    NoDigit,
    /// No lines at all.
    NoLines,
}

/// The index of the first digit of `s`, or `s.len()` where there is none.
pub open spec fn first_digit_index(s: Seq<char>) -> int
    decreases s.len(),
{
    if s.len() == 0 {
        0
    } else if is_digit(s[0]) {
        0
    } else {
        1 + first_digit_index(s.drop_first())
    }
}

proof fn lemma_first_digit_index(s: Seq<char>)
    ensures
        0 <= first_digit_index(s) <= s.len(),
        first_digit_index(s) < s.len() ==> is_digit(s[first_digit_index(s)]),
        forall|k: int| 0 <= k < first_digit_index(s) ==> !is_digit(#[trigger] s[k]),
    decreases s.len(),
{
    if s.len() > 0 && !is_digit(s[0]) {
        lemma_first_digit_index(s.drop_first());
        assert forall|k: int| 0 <= k < first_digit_index(s) implies !is_digit(#[trigger] s[k]) by {
            if k > 0 {
                assert(s[k] == s.drop_first()[k - 1]);
            }
        }
    }
}

/// The value of the first digit of `s`, if it has one.
pub open spec fn first_digit(s: Seq<char>) -> Option<int> {
    if first_digit_index(s) < s.len() {
        Some(digit_value(s[first_digit_index(s)]))
    } else {
        None
    }
}

/// The value that a line carries: ten times its first digit plus its last.
pub open spec fn line_value(s: Seq<char>) -> Option<int> {
    match (first_digit(s), first_digit(s.reverse())) {
        (Some(a), Some(b)) => Some(10 * a + b),
        _ => None,
    }
}

/// The sum of the values of `lines`, where each has one.
pub open spec fn lines_total(lines: Seq<Seq<char>>) -> Option<int>
    decreases lines.len(),
{
    if lines.len() == 0 {
        Some(0)
    } else {
        match (lines_total(lines.drop_last()), line_value(lines.last())) {
            (Some(t), Some(v)) => Some(t + v),
            _ => None,
        }
    }
}

/// The value of the first digit among `chars`.
pub fn find_first_digit(chars: &Vec<char>) -> (r: Result<i32, CalibrationError>)
    ensures
        match first_digit(chars@) {
            Some(d) => r matches Ok(x) && x == d,
            None => r == Err::<i32, CalibrationError>(CalibrationError::NoDigit),
        },
        r matches Ok(d) ==> 0 <= d <= 9,
{
    proof {
        lemma_first_digit_index(chars@);
    }
    let mut i: usize = 0;
    while i < chars.len()
        invariant
            i <= chars@.len(),
            i <= first_digit_index(chars@),
            0 <= first_digit_index(chars@) <= chars@.len(),
            first_digit_index(chars@) < chars@.len() ==> is_digit(chars@[first_digit_index(chars@)]),
            forall|k: int| 0 <= k < first_digit_index(chars@) ==> !is_digit(#[trigger] chars@[k]),
        decreases chars@.len() - i,
    {
        let c = chars[i];
        if '0' <= c && c <= '9' {
            return Ok(((c as u32) - ('0' as u32)) as i32);
        }
        i += 1;
    }
    Err(CalibrationError::NoDigit)
}

fn reversed(v: &Vec<char>) -> (r: Vec<char>)
    ensures
        r@ == v@.reverse(),
{
    let mut r: Vec<char> = Vec::new();
    let mut i: usize = v.len();
    while i > 0
        invariant
            i <= v@.len(),
            r@ == v@.subrange(i as int, v@.len() as int).reverse(),
        decreases i,
    {
        i -= 1;
        r.push(v[i]);
        assert(r@ =~= v@.subrange(i as int, v@.len() as int).reverse());
    }
    assert(v@.subrange(0, v@.len() as int) =~= v@);
    r
}

/// The value of one line: ten times its first digit plus its last.
pub fn parse_line(line: String) -> (r: Result<i32, CalibrationError>)
    ensures
        match line_value(line@) {
            Some(v) => r matches Ok(x) && x == v,
            None => r == Err::<i32, CalibrationError>(CalibrationError::NoDigit),
        },
        r matches Ok(v) ==> 0 <= v <= 99,
{
    let chars = chars_of(line.as_str());
    proof {
        lemma_first_digit_index(line@);
        lemma_first_digit_index(line@.reverse());
    }
    let first = match find_first_digit(&chars) {
        Ok(d) => d,
        Err(e) => {
            return Err(e);
        },
    };
    let last = match find_first_digit(&reversed(&chars)) {
        Ok(d) => d,
        Err(e) => {
            return Err(e);
        },
    };
    Ok(10 * first + last)
}

/// The sum of the values of all lines.
pub fn parse_file(lines: Vec<String>) -> (r: Result<i32, CalibrationError>)
    requires
        lines@.len() * 99 <= i32::MAX,
    ensures
        lines@.len() == 0 ==> r == Err::<i32, CalibrationError>(CalibrationError::NoLines),
        lines@.len() > 0 ==> match lines_total(lines@.map_values(|l: String| l@)) {
            Some(t) => r matches Ok(x) && x == t,
            None => r == Err::<i32, CalibrationError>(CalibrationError::NoDigit),
        },
{
    if lines.len() == 0 {
        return Err(CalibrationError::NoLines);
    }
    let ghost ls = lines@.map_values(|l: String| l@);
    let mut total: i32 = 0;
    let mut i: usize = 0;
    while i < lines.len()
        invariant
            ls == lines@.map_values(|l: String| l@),
            lines@.len() * 99 <= i32::MAX,
            i <= lines@.len(),
            lines_total(ls.take(i as int)) == Some(total as int),
            0 <= total <= 99 * i,
        decreases lines@.len() - i,
    {
        assert(ls.take(i + 1).drop_last() =~= ls.take(i as int));
        let line = lines[i].clone();
        assert(ls.take(i + 1).last() == ls[i as int]);
        assert(ls[i as int] == line@);
        match parse_line(line) {
            Ok(v) => {
                assert(line_value(ls[i as int]) == Some(v as int));
                assert(lines_total(ls.take(i + 1)) == Some(total + v));
                total = total + v;
            },
            Err(e) => {
                proof {
                    lemma_total_fails(ls, i as int);
                }
                return Err(e);
            },
        }
        i += 1;
    }
    assert(ls.take(i as int) =~= ls);
    Ok(total)
}

proof fn lemma_total_fails(ls: Seq<Seq<char>>, i: int)
    requires
        0 <= i < ls.len(),
        line_value(ls[i]) is None,
    ensures
        lines_total(ls) is None,
    decreases ls.len(),
{
    if i < ls.len() - 1 {
        lemma_total_fails(ls.drop_last(), i);
    }
}

} // verus!
