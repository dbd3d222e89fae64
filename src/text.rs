use vstd::prelude::*;
use vstd::string::*;

verus! {

pub open spec fn is_digit(c: char) -> bool {
    '0' <= c && c <= '9'
}

pub open spec fn digit_value(c: char) -> int {
    c as int - '0' as int
}

pub open spec fn all_digits(s: Seq<char>) -> bool {
    forall|i: int| 0 <= i < s.len() ==> is_digit(#[trigger] s[i])
}

/// The number that a string of decimal digits writes.
pub open spec fn decimal(s: Seq<char>) -> int
    decreases s.len(),
{
    if s.len() == 0 {
        0
    } else {
        decimal(s.drop_last()) * 10 + digit_value(s.last())
    }
}

/// A white space character: one with the Unicode `White_Space` property.
pub open spec fn is_white_space(c: char) -> bool {
    ||| ('\t' <= c && c <= '\r')
    ||| c == ' '
    ||| c == '\u{85}'
    ||| c == '\u{a0}'
    ||| c == '\u{1680}'
    ||| ('\u{2000}' <= c && c <= '\u{200a}')
    ||| c == '\u{2028}'
    ||| c == '\u{2029}'
    ||| c == '\u{202f}'
    ||| c == '\u{205f}'
    ||| c == '\u{3000}'
}

/// The digits of an unsigned number as text: what follows an optional leading `+`.
pub open spec fn unsigned_digits(s: Seq<char>) -> Seq<char> {
    if s.len() > 0 && s[0] == '+' {
        s.drop_first()
    } else {
        s
    }
}

/// The text writes an unsigned number no larger than `limit`.
pub open spec fn is_unsigned(s: Seq<char>, limit: int) -> bool {
    let d = unsigned_digits(s);
    d.len() > 0 && all_digits(d) && decimal(d) <= limit
}

/// What `str::trim` leaves of `s`.
pub uninterp spec fn trimmed(s: Seq<char>) -> Seq<char>;

/// Relies on `str::trim`: strips leading and trailing white space; the result
/// depends on the characters alone.
#[verifier::external_body]
pub(crate) fn trim(s: &str) -> (r: &str)
    ensures
        r@ == trimmed(s@),
{
    s.trim()
}

/// The words of `s`, as `str::split_whitespace` gives them.
pub uninterp spec fn words(s: Seq<char>) -> Seq<Seq<char>>;

/// Relies on `str::split_whitespace`: the maximal runs of non-white-space
/// characters, in order; the result depends on the characters alone.
#[verifier::external_body]
pub(crate) fn split_words(s: &str) -> (r: Vec<String>)
    ensures
        r@.map_values(|w: String| w@) == words(s@),
{
    s.split_whitespace().map(|w| w.to_string()).collect()
}

/// The characters of `s`, in order.
pub fn chars_of(s: &str) -> (r: Vec<char>)
    ensures
        r@ == s@,
{
    let n = s.unicode_len();
    let mut r: Vec<char> = Vec::new();
    let mut i: usize = 0;
    while i < n
        invariant
            n == s@.len(),
            i <= n,
            r@ == s@.take(i as int),
        decreases n - i,
    {
        r.push(s.get_char(i));
        i += 1;
        assert(r@ =~= s@.take(i as int));
    }
    assert(r@ =~= s@);
    r
}

proof fn lemma_decimal_nonneg(s: Seq<char>)
    requires
        all_digits(s),
    ensures
        decimal(s) >= 0,
    decreases s.len(),
{
    if s.len() > 0 {
        assert(all_digits(s.drop_last())) by {
            assert forall|k: int| 0 <= k < s.drop_last().len() implies is_digit(
                #[trigger] s.drop_last()[k],
            ) by {
                assert(s.drop_last()[k] == s[k]);
            }
        }
        lemma_decimal_nonneg(s.drop_last());
        assert(is_digit(s[s.len() - 1]));
    }
}

proof fn lemma_decimal_grows(s: Seq<char>, i: int, j: int)
    requires
        0 <= i <= j <= s.len(),
        all_digits(s),
    ensures
        0 <= decimal(s.take(i)) <= decimal(s.take(j)),
    decreases j - i,
{
    if i < j {
        lemma_decimal_grows(s, i, j - 1);
        assert(s.take(j).drop_last() =~= s.take(j - 1));
        assert(is_digit(s[j - 1]));
    } else {
        assert(all_digits(s.take(i))) by {
            assert forall|k: int| 0 <= k < s.take(i).len() implies is_digit(
                #[trigger] s.take(i)[k],
            ) by {
                assert(s.take(i)[k] == s[k]);
            }
        }
        lemma_decimal_nonneg(s.take(i));
    }
}

/// Reads the unsigned decimal number that `s` writes, with an optional leading `+`,
/// as `str::parse` does for unsigned integers; `None` where `s` writes none or one
/// above `limit`.
pub fn parse_decimal(s: &str, limit: u64) -> (r: Option<u64>)
    ensures
        r is Some <==> is_unsigned(s@, limit as int),
        r matches Some(v) ==> v == decimal(unsigned_digits(s@)),
{
    let c = chars_of(s);
    let n = c.len();
    let mut i: usize = 0;
    if n > 0 && c[0] == '+' {
        i = 1;
    }
    let ghost d = unsigned_digits(s@);
    assert(d =~= c@.subrange(i as int, n as int));
    if i == n {
        return None;
    }
    let start = i;
    let mut v: u64 = 0;
    while i < n
        invariant
            c@ == s@,
            n == c@.len(),
            start <= i <= n,
            d == c@.subrange(start as int, n as int),
            d == unsigned_digits(s@),
            forall|k: int| start <= k < i ==> is_digit(#[trigger] c@[k]),
            v == decimal(d.take(i - start)),
            v <= limit,
        decreases n - i,
    {
        let ch = c[i];
        if ch < '0' || ch > '9' {
            assert(d[i - start] == c@[i as int]);
            assert(ch == c@[i as int]);
            assert(!is_digit(d[i - start]));
            assert(!all_digits(d));
            return None;
        }
        let digit = ((ch as u32) - ('0' as u32)) as u64;
        assert(d[i - start] == c@[i as int]);
        assert(digit == digit_value(d[i - start]));
        assert(d.take(i - start + 1).drop_last() =~= d.take(i - start));
        assert(v <= limit / 10 ==> v * 10 <= limit) by (nonlinear_arith);
        if v > limit / 10 || digit > limit - v * 10 {
            proof {
                assert(decimal(d.take(i - start + 1)) == v * 10 + digit);
                assert(v * 10 + digit > limit) by (nonlinear_arith)
                    requires
                        v > limit / 10 || digit + v * 10 > limit,
                        digit >= 0,
                ;
                if all_digits(d) {
                    lemma_decimal_grows(d, i - start + 1, d.len() as int);
                    assert(d.take(d.len() as int) =~= d);
                }
            }
            return None;
        }
        v = v * 10 + digit;
        i += 1;
    }
    proof {
        assert(d.take(i - start) =~= d);
        assert forall|k: int| 0 <= k < d.len() implies is_digit(#[trigger] d[k]) by {
            assert(d[k] == c@[start + k]);
        }
    }
    Some(v)
}

/// Reads an unsigned decimal number as a `usize`.
pub fn parse_usize(s: &str) -> (r: Option<usize>)
    ensures
        r is Some <==> is_unsigned(s@, usize::MAX as int),
        r matches Some(v) ==> v == decimal(unsigned_digits(s@)),
{
    match parse_decimal(s, usize::MAX as u64) {
        Some(v) => Some(v as usize),
        None => None,
    }
}

/// Reads an unsigned decimal number as a `u32`.
pub fn parse_u32(s: &str) -> (r: Option<u32>)
    ensures
        r is Some <==> is_unsigned(s@, u32::MAX as int),
        r matches Some(v) ==> v == decimal(unsigned_digits(s@)),
{
    match parse_decimal(s, u32::MAX as u64) {
        Some(v) => Some(v as u32),
        None => None,
    }
}

/// The index of the first `c` in `s`, or `s.len()` where there is none.
pub open spec fn find_char(s: Seq<char>, c: char) -> int
    decreases s.len(),
{
    if s.len() == 0 {
        0
    } else if s[0] == c {
        0
    } else {
        1 + find_char(s.drop_first(), c)
    }
}

pub proof fn lemma_find_char(s: Seq<char>, c: char)
    ensures
        0 <= find_char(s, c) <= s.len(),
        find_char(s, c) < s.len() ==> s[find_char(s, c)] == c,
        forall|k: int| 0 <= k < find_char(s, c) ==> s[k] != c,
    decreases s.len(),
{
    if s.len() > 0 && s[0] != c {
        lemma_find_char(s.drop_first(), c);
        assert forall|k: int| 0 <= k < find_char(s, c) implies s[k] != c by {
            if k > 0 {
                assert(s[k] == s.drop_first()[k - 1]);
            }
        }
    }
}

/// The position of the first `c` in `v`, or `v.len()` where there is none.
pub fn position_of(v: &Vec<char>, c: char) -> (r: usize)
    ensures
        r == find_char(v@, c),
{
    proof {
        lemma_find_char(v@, c);
    }
    let mut i: usize = 0;
    while i < v.len()
        invariant
            i <= v@.len(),
            i <= find_char(v@, c),
            0 <= find_char(v@, c) <= v@.len(),
            find_char(v@, c) < v@.len() ==> v@[find_char(v@, c)] == c,
            forall|k: int| 0 <= k < find_char(v@, c) ==> v@[k] != c,
        decreases v@.len() - i,
    {
        if v[i] == c {
            return i;
        }
        i += 1;
    }
    i
}


/// The pieces of `s` between the occurrences of `c`, as `str::split` gives them.
pub open spec fn split_on(s: Seq<char>, c: char) -> Seq<Seq<char>>
    decreases s.len(),
{
    let i = find_char(s, c);
    if i < 0 || i >= s.len() {
        seq![s]
    } else {
        seq![s.take(i)] + split_on(s.skip(i + 1), c)
    }
}

/// The pieces of `s` between the occurrences of `c`.
pub fn split_char(s: &str, c: char) -> (r: Vec<String>)
    ensures
        r@.map_values(|p: String| p@) == split_on(s@, c),
        r@.len() >= 1,
{
    let chars = chars_of(s);
    let n = chars.len();
    let mut pieces: Vec<String> = Vec::new();
    let mut start: usize = 0;
    assert(s@.skip(0) =~= s@);
    loop
        invariant
            chars@ == s@,
            n == chars@.len(),
            start <= n,
            pieces@.map_values(|p: String| p@) + split_on(s@.skip(start as int), c) == split_on(
                s@,
                c,
            ),
        decreases n - start,
    {
        let ghost rest = s@.skip(start as int);
        proof {
            lemma_find_char(rest, c);
        }
        let mut end = start;
        while end < n && chars[end] != c
            invariant
                chars@ == s@,
                n == chars@.len(),
                start <= end <= n,
                rest == s@.skip(start as int),
                end - start <= find_char(rest, c),
                0 <= find_char(rest, c) <= rest.len(),
                find_char(rest, c) < rest.len() ==> rest[find_char(rest, c)] == c,
                forall|k: int| 0 <= k < find_char(rest, c) ==> rest[k] != c,
            decreases n - end,
        {
            assert(rest[end - start] == chars@[end as int]);
            end += 1;
        }
        let ghost before = pieces@.map_values(|p: String| p@);
        let piece = s.substring_char(start, end).to_owned();
        assert(piece@ =~= rest.take(end - start));
        pieces.push(piece);
        assert(pieces@.map_values(|p: String| p@) =~= before.push(rest.take(end - start)));
        if end == n {
            assert(rest.take(end - start) =~= rest);
            assert(split_on(rest, c) == seq![rest]);
            assert(pieces@.map_values(|p: String| p@) =~= before + split_on(rest, c));
            return pieces;
        }
        assert(rest[end - start] == chars@[end as int]);
        assert(find_char(rest, c) == end - start);
        assert(rest.skip(end - start + 1) =~= s@.skip(end + 1));
        assert(pieces@.map_values(|p: String| p@) + split_on(s@.skip(end + 1), c) =~= before
            + split_on(rest, c));
        start = end + 1;
    }
}


/// The text writes a signed number in `i32` range: an optional `+` or `-`, then
/// decimal digits.
pub open spec fn is_i32(s: Seq<char>) -> bool {
    if s.len() > 0 && s[0] == '-' {
        let d = s.drop_first();
        d.len() > 0 && all_digits(d) && decimal(d) <= 0x8000_0000
    } else {
        is_unsigned(s, i32::MAX as int)
    }
}

/// The value that a signed number as text writes.
pub open spec fn signed_value(s: Seq<char>) -> int {
    if s.len() > 0 && s[0] == '-' {
        -decimal(s.drop_first())
    } else {
        decimal(unsigned_digits(s))
    }
}

/// Reads a signed decimal number as an `i32`, as `str::parse` does.
pub fn parse_i32(s: &str) -> (r: Option<i32>)
    ensures
        r is Some <==> is_i32(s@),
        r matches Some(v) ==> v == signed_value(s@),
{
    let n = s.unicode_len();
    if n > 0 && s.get_char(0) == '-' {
        let rest = s.substring_char(1, n);
        assert(rest@ =~= s@.drop_first());
        if n > 1 && rest.get_char(0) == '+' {
            assert(!is_digit(s@.drop_first()[0]));
            return None;
        }
        match parse_decimal(rest, 0x8000_0000) {
            Some(v) => {
                assert(unsigned_digits(rest@) =~= rest@);
                Some((0 - (v as i64)) as i32)
            },
            None => {
                if n > 1 {
                    assert(unsigned_digits(rest@) =~= rest@);
                }
                None
            },
        }
    } else {
        match parse_decimal(s, i32::MAX as u64) {
            Some(v) => Some(v as i32),
            None => None,
        }
    }
}


/// Reads each of `ws` as an unsigned number; `None` where one is not.
pub fn parse_all_usize(ws: &Vec<String>) -> (r: Option<Vec<usize>>)
    ensures
        r is Some <==> forall|i: int| 0 <= i < ws@.len() ==> is_unsigned(#[trigger] ws@[i]@, usize::MAX as int),
        r matches Some(v) ==> v@.len() == ws@.len() && forall|i: int|
            0 <= i < ws@.len() ==> v@[i] == decimal(unsigned_digits(#[trigger] ws@[i]@)),
{
    let mut nums: Vec<usize> = Vec::new();
    let mut k: usize = 0;
    while k < ws.len()
        invariant
            k <= ws@.len(),
            nums@.len() == k,
            forall|t: int| 0 <= t < k ==> is_unsigned(#[trigger] ws@[t]@, usize::MAX as int),
            forall|t: int| 0 <= t < k ==> nums@[t] == decimal(unsigned_digits(#[trigger] ws@[t]@)),
        decreases ws@.len() - k,
    {
        match parse_usize(ws[k].as_str()) {
            Some(v) => {
                nums.push(v);
            },
            None => {
                return None;
            },
        }
        k += 1;
    }
    Some(nums)
}

} // verus!
