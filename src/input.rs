use vstd::prelude::*;
use vstd::string::*;
use crate::text::{chars_of, find_char, lemma_find_char, is_digit, digit_value};

verus! {

/// Why the input of a solver could not be located.
#[derive(Debug, Clone, Copy, PartialEq, Eq, Structural)]
pub enum InputError {
    /// The name holds no `dayNN-partN.rs`.
    InvalidFilename,
}

/// A line without the carriage return that may end it.
pub open spec fn strip_cr(l: Seq<char>) -> Seq<char> {
    if l.len() > 0 && l.last() == '\r' {
        l.drop_last()
    } else {
        l
    }
}

/// The lines of a text: split at each `\n` (with a `\r` just before it dropped);
/// a last line that ends the text without a `\n` counts where it is not empty.
pub open spec fn lines_of(s: Seq<char>) -> Seq<Seq<char>>
    decreases s.len(),
{
    let i = find_char(s, '\n');
    if i < 0 || i >= s.len() {
        if s.len() == 0 {
            seq![]
        } else {
            seq![s]
        }
    } else {
        seq![strip_cr(s.take(i))] + lines_of(s.skip(i + 1))
    }
}

/// The first position at or after `start` that holds `c`, or `v.len()`.
fn position_from(v: &Vec<char>, c: char, start: usize) -> (r: usize)
    requires
        start <= v@.len(),
    ensures
        r == start + find_char(v@.skip(start as int), c),
        start <= r <= v@.len(),
{
    let ghost t = v@.skip(start as int);
    proof {
        lemma_find_char(t, c);
    }
    let mut i: usize = start;
    while i < v.len()
        invariant
            t == v@.skip(start as int),
            start <= i <= v@.len(),
            i - start <= find_char(t, c),
            0 <= find_char(t, c) <= t.len(),
            find_char(t, c) < t.len() ==> t[find_char(t, c)] == c,
            forall|k: int| 0 <= k < find_char(t, c) ==> t[k] != c,
        decreases v@.len() - i,
    {
        assert(t[i - start] == v@[i as int]);
        if v[i] == c {
            return i;
        }
        i += 1;
    }
    i
}

/// The lines of a loaded input text.
pub fn load_input_lines(raw: &str) -> (r: Vec<String>)
    ensures
        r@.map_values(|l: String| l@) == lines_of(raw@),
{
    let chars = chars_of(raw);
    let n = chars.len();
    let mut lines: Vec<String> = Vec::new();
    let mut start: usize = 0;
    assert(raw@.skip(0) =~= raw@);
    while start < n
        invariant
            chars@ == raw@,
            n == chars@.len(),
            start <= n,
            lines@.map_values(|l: String| l@) + lines_of(raw@.skip(start as int)) == lines_of(raw@),
        decreases n - start,
    {
        let ghost rest = raw@.skip(start as int);
        proof {
            lemma_find_char(rest, '\n');
        }
        let end = position_from(&chars, '\n', start);
        let ghost before = lines@.map_values(|l: String| l@);
        if end == n {
            let line = raw.substring_char(start, n).to_owned();
            assert(line@ =~= rest);
            lines.push(line);
            assert(lines@.map_values(|l: String| l@) =~= before.push(rest));
            assert(lines_of(rest) == seq![rest]);
            assert(raw@.skip(n as int) =~= Seq::<char>::empty());
            assert(lines_of(raw@.skip(n as int)) =~= Seq::<Seq<char>>::empty());
            assert(before + seq![rest] =~= before.push(rest));
            assert(lines@.map_values(|l: String| l@) + lines_of(raw@.skip(n as int)) =~= before
                + lines_of(rest));
            start = n;
        } else {
            let mut stop = end;
            if stop > start && chars[stop - 1] == '\r' {
                stop = stop - 1;
            }
            let line = raw.substring_char(start, stop).to_owned();
            let ghost piece = rest.take(end - start);
            assert(line@ =~= strip_cr(piece));
            lines.push(line);
            assert(rest.skip(end - start + 1) =~= raw@.skip(end + 1));
            assert(lines_of(rest) == seq![strip_cr(piece)] + lines_of(rest.skip(end - start + 1)));
            assert(lines@.map_values(|l: String| l@) =~= before.push(strip_cr(piece)));
            assert(lines@.map_values(|l: String| l@) + lines_of(raw@.skip(end + 1)) =~= before
                + lines_of(rest));
            start = end + 1;
        }
    }
    assert(raw@.skip(start as int) =~= Seq::<char>::empty());
    assert(lines_of(raw@.skip(start as int)) =~= Seq::<Seq<char>>::empty());
    assert(lines@.map_values(|l: String| l@) + Seq::<Seq<char>>::empty() =~= lines@.map_values(
        |l: String| l@,
    ));
    lines
}


/// The solver file name `dayDD-partP.rs` stands at position `i` of `s`.
pub open spec fn day_name_at(s: Seq<char>, i: int) -> bool {
    &&& 0 <= i
    &&& i + 14 <= s.len()
    &&& s[i] == 'd' && s[i + 1] == 'a' && s[i + 2] == 'y'
    &&& is_digit(s[i + 3]) && is_digit(s[i + 4])
    &&& s[i + 5] == '-' && s[i + 6] == 'p' && s[i + 7] == 'a' && s[i + 8] == 'r' && s[i + 9] == 't'
    &&& is_digit(s[i + 10])
    &&& s[i + 11] == '.' && s[i + 12] == 'r' && s[i + 13] == 's'
}

/// The two day digits of the first solver file name in `s`, if any.
pub open spec fn day_digits_of(s: Seq<char>) -> Option<Seq<char>> {
    if exists|i: int| day_name_at(s, i) {
        let i = choose|i: int|
            day_name_at(s, i) && forall|k: int| 0 <= k < i ==> !day_name_at(s, k);
        Some(s.subrange(i + 3, i + 5))
    } else {
        None
    }
}

/// Relies on `regex::Regex::captures`, which finds the leftmost match: the text of
/// the capture group of the first `day([0-9]{2})-part[0-9]\.rs` in `name`.
#[verifier::external_body]
fn day_digits(name: &str) -> (r: Option<String>)
    ensures
        r is None <==> forall|i: int| !day_name_at(name@, i),
        r matches Some(d) ==> exists|i: int|
            day_name_at(name@, i) && (forall|k: int| 0 <= k < i ==> !day_name_at(name@, k)) && d@
                == name@.subrange(i + 3, i + 5),
{
    let re = regex::Regex::new(r"day([0-9]{2})-part[0-9]\.rs").unwrap();
    match re.captures(name) {
        Some(caps) => match caps.get(1) {
            Some(m) => Some(m.as_str().to_string()),
            None => None,
        },
        None => None,
    }
}

proof fn lemma_first_match_unique(s: Seq<char>, i: int, j: int)
    requires
        day_name_at(s, i),
        forall|k: int| 0 <= k < i ==> !day_name_at(s, k),
        day_name_at(s, j),
        forall|k: int| 0 <= k < j ==> !day_name_at(s, k),
    ensures
        i == j,
{
    if i < j {
        assert(!day_name_at(s, i));
    } else if j < i {
        assert(!day_name_at(s, j));
    }
}

proof fn lemma_day_digits(name: Seq<char>, d: Seq<char>)
    requires
        exists|i: int|
            day_name_at(name, i) && (forall|k: int| 0 <= k < i ==> !day_name_at(name, k)) && d
                == name.subrange(i + 3, i + 5),
    ensures
        day_digits_of(name) == Some(d),
        d.len() == 2,
        is_digit(d[0]) && is_digit(d[1]),
{
    let i = choose|i: int|
        day_name_at(name, i) && (forall|k: int| 0 <= k < i ==> !day_name_at(name, k)) && d
            == name.subrange(i + 3, i + 5);
    let c = choose|c: int|
        day_name_at(name, c) && forall|k: int| 0 <= k < c ==> !day_name_at(name, k);
    lemma_first_match_unique(name, i, c);
    assert(d[0] == name[i + 3] && d[1] == name[i + 4]);
}

/// The day that a solver's file name (`dayDD-partP.rs`, anywhere in `name`) is for.
pub fn parse_filename(name: &str) -> (r: Result<u8, InputError>)
    ensures
        match day_digits_of(name@) {
            Some(d) => r == Ok::<u8, InputError>((10 * digit_value(d[0]) + digit_value(d[1])) as u8),
            None => r == Err::<u8, InputError>(InputError::InvalidFilename),
        },
        r matches Ok(day) ==> day <= 99,
{
    match day_digits(name) {
        Some(d) => {
            proof {
                lemma_day_digits(name@, d@);
            }
            let tens = d.as_str().get_char(0);
            let ones = d.as_str().get_char(1);
            Ok((10 * ((tens as u32) - ('0' as u32)) + ((ones as u32) - ('0' as u32))) as u8)
        },
        None => Err(InputError::InvalidFilename),
    }
}

/// Where the input of the solver in file `name` is kept: `data/DD.txt`, for the day
/// `DD` of the name.
pub fn load_input_by_name(name: &str) -> (r: Result<String, InputError>)
    ensures
        match day_digits_of(name@) {
            Some(d) => r matches Ok(path) && path@ == "data/"@ + d + ".txt"@,
            None => r == Err::<String, InputError>(InputError::InvalidFilename),
        },
{
    match day_digits(name) {
        Some(d) => {
            proof {
                lemma_day_digits(name@, d@);
            }
            let mut path = String::from_str("data/");
            path.append(d.as_str());
            path.append(".txt");
            Ok(path)
        },
        None => Err(InputError::InvalidFilename),
    }
}

} // verus!
