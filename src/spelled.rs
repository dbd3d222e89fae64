use vstd::prelude::*;
use vstd::string::*;
use crate::calibration::CalibrationError;
use crate::text::{chars_of, is_digit, digit_value};

verus! {

/// The English name of the digit `j + 1`, for `j` from 0 to 8.
pub open spec fn digit_word(j: int) -> Seq<char> {
    if j == 0 {
        seq!['o', 'n', 'e']
    } else if j == 1 {
        seq!['t', 'w', 'o']
    } else if j == 2 {
        seq!['t', 'h', 'r', 'e', 'e']
    } else if j == 3 {
        seq!['f', 'o', 'u', 'r']
    } else if j == 4 {
        seq!['f', 'i', 'v', 'e']
    } else if j == 5 {
        seq!['s', 'i', 'x']
    } else if j == 6 {
        seq!['s', 'e', 'v', 'e', 'n']
    } else if j == 7 {
        seq!['e', 'i', 'g', 'h', 't']
    } else {
        seq!['n', 'i', 'n', 'e']
    }
}

/// The name as it reads in a reversed line, where `rev` holds.
pub open spec fn word_for(j: int, rev: bool) -> Seq<char> {
    if rev {
        digit_word(j).reverse()
    } else {
        digit_word(j)
    }
}

/// The first `i + 1` characters of `s` end with `w`.
pub open spec fn ends_at(s: Seq<char>, i: int, w: Seq<char>) -> bool {
    w.len() <= i + 1 && s.subrange(i + 1 - w.len(), i + 1) == w
}

/// The value of the first of the names from `j` on that ends at position `i`.
pub open spec fn word_value(s: Seq<char>, i: int, rev: bool, j: int) -> Option<int>
    decreases 9 - j,
{
    if j >= 9 {
        None
    } else if ends_at(s, i, word_for(j, rev)) {
        Some(j + 1)
    } else {
        word_value(s, i, rev, j + 1)
    }
}

/// The digit that position `i` of `s` completes: a digit character, or a name
/// ending there.
pub open spec fn value_at(s: Seq<char>, i: int, rev: bool) -> Option<int> {
    if is_digit(s[i]) {
        Some(digit_value(s[i]))
    } else {
        word_value(s, i, rev, 0)
    }
}

/// The first digit that `s` completes from position `i` on.
pub open spec fn first_value(s: Seq<char>, rev: bool, i: int) -> Option<int>
    decreases s.len() - i,
{
    if i < 0 || i >= s.len() {
        None
    } else {
        match value_at(s, i, rev) {
            Some(v) => Some(v),
            None => first_value(s, rev, i + 1),
        }
    }
}

/// The value of a line: ten times its first digit plus its last, digits written
/// either way.
pub open spec fn spelled_line_value(s: Seq<char>) -> Option<int> {
    match (first_value(s, false, 0), first_value(s.reverse(), true, 0)) {
        (Some(a), Some(b)) => Some(10 * a + b),
        _ => None,
    }
}

fn word_chars(j: usize, rev: bool) -> (r: Vec<char>)
    requires
        j < 9,
    ensures
        r@ == word_for(j as int, rev),
{
    let w: Vec<char> = if j == 0 {
        vec!['o', 'n', 'e']
    } else if j == 1 {
        vec!['t', 'w', 'o']
    } else if j == 2 {
        vec!['t', 'h', 'r', 'e', 'e']
    } else if j == 3 {
        vec!['f', 'o', 'u', 'r']
    } else if j == 4 {
        vec!['f', 'i', 'v', 'e']
    } else if j == 5 {
        vec!['s', 'i', 'x']
    } else if j == 6 {
        vec!['s', 'e', 'v', 'e', 'n']
    } else if j == 7 {
        vec!['e', 'i', 'g', 'h', 't']
    } else {
        vec!['n', 'i', 'n', 'e']
    };
    assert(w@ =~= digit_word(j as int));
    if rev {
        let mut r: Vec<char> = Vec::new();
        let mut k: usize = w.len();
        while k > 0
            invariant
                k <= w@.len(),
                r@ == w@.subrange(k as int, w@.len() as int).reverse(),
            decreases k,
        {
            k -= 1;
            r.push(w[k]);
            assert(r@ =~= w@.subrange(k as int, w@.len() as int).reverse());
        }
        assert(w@.subrange(0, w@.len() as int) =~= w@);
        r
    } else {
        w
    }
}

fn ends_with_at(s: &Vec<char>, i: usize, w: &Vec<char>) -> (r: bool)
    requires
        i < s@.len(),
    ensures
        r == ends_at(s@, i as int, w@),
{
    if w.len() == 0 {
        assert(s@.subrange(i + 1, i + 1) =~= w@);
        return true;
    }
    if w.len() - 1 > i {
        return false;
    }
    let base = i - (w.len() - 1);
    let mut k: usize = 0;
    while k < w.len()
        invariant
            base + w@.len() == i + 1,
            i < s@.len(),
            k <= w@.len(),
            forall|m: int| 0 <= m < k ==> s@[base + m] == w@[m],
        decreases w@.len() - k,
    {
        if s[base + k] != w[k] {
            assert(s@.subrange(base as int, i + 1)[k as int] != w@[k as int]);
            return false;
        }
        k += 1;
    }
    assert(s@.subrange(base as int, i + 1) =~= w@);
    true
}

/// The first digit of `line`, as a character or spelled out; where `rev` holds the
/// line is read reversed, so the names are matched reversed too.
pub fn find_first_digit(line: &str, rev: bool) -> (r: Result<i32, CalibrationError>)
    ensures
        match first_value(line@, rev, 0) {
            Some(v) => r matches Ok(x) && x == v,
            None => r == Err::<i32, CalibrationError>(CalibrationError::NoDigit),
        },
        r matches Ok(x) ==> 0 <= x <= 9,
{
    let s = chars_of(line);
    let mut i: usize = 0;
    while i < s.len()
        invariant
            s@ == line@,
            i <= s@.len(),
            first_value(line@, rev, 0) == first_value(line@, rev, i as int),
        decreases s@.len() - i,
    {
        let c = s[i];
        if '0' <= c && c <= '9' {
            return Ok(((c as u32) - ('0' as u32)) as i32);
        }
        let mut j: usize = 0;
        while j < 9
            invariant
                s@ == line@,
                i < s@.len(),
                !is_digit(line@[i as int]),
                first_value(line@, rev, 0) == first_value(line@, rev, i as int),
                j <= 9,
                word_value(line@, i as int, rev, 0) == word_value(line@, i as int, rev, j as int),
            decreases 9 - j,
        {
            let w = word_chars(j, rev);
            if ends_with_at(&s, i, &w) {
                assert(!is_digit(line@[i as int]));
                assert(word_value(line@, i as int, rev, j as int) == Some(j + 1));
                assert(first_value(line@, rev, i as int) == Some(j + 1));
                return Ok((j + 1) as i32);
            }
            j += 1;
        }
        assert(!is_digit(line@[i as int]));
        assert(value_at(line@, i as int, rev) is None);
        assert(first_value(line@, rev, i as int) == first_value(line@, rev, i + 1));
        i += 1;
    }
    Err(CalibrationError::NoDigit)
}

/// The string with its characters in reverse order.
pub fn reverse_string(s: &str) -> (r: String)
    ensures
        r@ == s@.reverse(),
{
    let n = s.unicode_len();
    let mut r = String::new();
    let mut i: usize = n;
    while i > 0
        invariant
            n == s@.len(),
            i <= n,
            r@ == s@.subrange(i as int, n as int).reverse(),
        decreases i,
    {
        i -= 1;
        r.append(s.substring_char(i, i + 1));
        assert(r@ =~= s@.subrange(i as int, n as int).reverse());
    }
    assert(s@.subrange(0, n as int) =~= s@);
    r
}

/// The value of one line: ten times its first digit plus its last, digits written
/// either way.
pub fn parse_line(line: String) -> (r: Result<i32, CalibrationError>)
    ensures
        match spelled_line_value(line@) {
            Some(v) => r matches Ok(x) && x == v,
            None => r == Err::<i32, CalibrationError>(CalibrationError::NoDigit),
        },
        r matches Ok(x) ==> 0 <= x <= 99,
{
    let first = match find_first_digit(line.as_str(), false) {
        Ok(d) => d,
        Err(e) => {
            return Err(e);
        },
    };
    let reversed = reverse_string(line.as_str());
    let last = match find_first_digit(reversed.as_str(), true) {
        Ok(d) => d,
        Err(e) => {
            return Err(e);
        },
    };
    Ok(10 * first + last)
}

/// The sum of the values of all lines, digits written either way.
pub fn parse_file(lines: Vec<String>) -> (r: Result<i32, CalibrationError>)
    requires
        lines@.len() * 99 <= i32::MAX,
    ensures
        lines@.len() == 0 ==> r == Err::<i32, CalibrationError>(CalibrationError::NoLines),
        lines@.len() > 0 ==> match spelled_total(lines@.map_values(|l: String| l@)) {
            Some(t) => r matches Ok(x) && x == t,
            None => r == Err::<i32, CalibrationError>(CalibrationError::NoDigit),
        },
{
    if lines.len() == 0 {
        return Err(CalibrationError::NoLines);
    }
    let ghost ls = lines@.map_values(|l: String| l@);
    let mut total: i32 = 0;
    let mut i: usize = 0;
    while i < lines.len()
        invariant
            ls == lines@.map_values(|l: String| l@),
            lines@.len() * 99 <= i32::MAX,
            i <= lines@.len(),
            spelled_total(ls.take(i as int)) == Some(total as int),
            0 <= total <= 99 * i,
        decreases lines@.len() - i,
    {
        assert(ls.take(i + 1).drop_last() =~= ls.take(i as int));
        let line = lines[i].clone();
        assert(ls.take(i + 1).last() == ls[i as int]);
        assert(ls[i as int] == line@);
        match parse_line(line) {
            Ok(v) => {
                assert(spelled_line_value(ls[i as int]) == Some(v as int));
                assert(spelled_total(ls.take(i + 1)) == Some(total + v));
                total = total + v;
            },
            Err(e) => {
                proof {
                    lemma_spelled_total_fails(ls, i as int);
                }
                return Err(e);
            },
        }
        i += 1;
    }
    assert(ls.take(i as int) =~= ls);
    Ok(total)
}

/// The sum of the values of `lines`, where each has one.
pub open spec fn spelled_total(lines: Seq<Seq<char>>) -> Option<int>
    decreases lines.len(),
{
    if lines.len() == 0 {
        Some(0)
    } else {
        match (spelled_total(lines.drop_last()), spelled_line_value(lines.last())) {
            (Some(t), Some(v)) => Some(t + v),
            _ => None,
        }
    }
}

proof fn lemma_spelled_total_fails(ls: Seq<Seq<char>>, i: int)
    requires
        0 <= i < ls.len(),
        spelled_line_value(ls[i]) is None,
    ensures
        spelled_total(ls) is None,
    decreases ls.len(),
{
    if i < ls.len() - 1 {
        lemma_spelled_total_fails(ls.drop_last(), i);
    }
}

} // verus!
