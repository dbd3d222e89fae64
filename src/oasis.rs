use vstd::prelude::*;
use crate::text::{trim, trimmed, split_words, words, parse_i32, is_i32, signed_value};

verus! {

pub open spec fn ints(v: Seq<i32>) -> Seq<int> {
    v.map_values(|x: i32| x as int)
}

pub open spec fn fits_i32(x: int) -> bool {
    i32::MIN <= x <= i32::MAX
}

/// The differences between neighbouring values.
pub open spec fn diffs(s: Seq<int>) -> Seq<int> {
    Seq::new((if s.len() == 0 { 0 } else { s.len() - 1 }) as nat, |i: int| s[i + 1] - s[i])
}

/// The `k`-th sequence of differences; the 0-th is `s` itself.
pub open spec fn level(s: Seq<int>, k: nat) -> Seq<int>
    decreases k,
{
    if k == 0 {
        s
    } else {
        diffs(level(s, (k - 1) as nat))
    }
}

pub open spec fn all_zero(s: Seq<int>) -> bool {
    forall|i: int| 0 <= i < s.len() ==> s[i] == 0
}

/// The first level from `k` on whose values are all zero (an empty level counts).
pub open spec fn depth_from(s: Seq<int>, k: nat) -> nat
    decreases s.len() - k,
{
    if k >= s.len() {
        s.len()
    } else if all_zero(level(s, k)) {
        k
    } else {
        depth_from(s, k + 1)
    }
}

/// The sum of the last values of levels 0 to `j`.
pub open spec fn lasts_sum(s: Seq<int>, j: nat) -> int
    decreases j,
{
    let here = level(s, j).last();
    if j == 0 {
        here
    } else {
        lasts_sum(s, (j - 1) as nat) + here
    }
}

/// The values go to zero in fewer differences than there are values, and every
/// level and every partial sum of last values up to there fits in `i32`.
pub open spec fn extrapolable(s: Seq<int>) -> bool {
    let d = depth_from(s, 1);
    &&& d < s.len()
    &&& forall|k: nat, i: int|
        k <= d && 0 <= i < level(s, k).len() ==> fits_i32(#[trigger] level(s, k)[i])
    &&& forall|j: nat| j <= d ==> fits_i32(#[trigger] lasts_sum(s, j))
}

proof fn lemma_level_len(s: Seq<int>, k: nat)
    requires
        k <= s.len(),
    ensures
        level(s, k).len() == s.len() - k,
    decreases k,
{
    if k > 0 {
        lemma_level_len(s, (k - 1) as nat);
    }
}

proof fn lemma_depth(s: Seq<int>, k: nat)
    requires
        1 <= k <= s.len(),
    ensures
        k <= depth_from(s, k) <= s.len(),
        depth_from(s, k) < s.len() ==> all_zero(level(s, depth_from(s, k))),
        forall|m: nat| k <= m < depth_from(s, k) ==> !all_zero(#[trigger] level(s, m)),
    decreases s.len() - k,
{
    if k < s.len() && !all_zero(level(s, k)) {
        lemma_depth(s, k + 1);
    }
}

/// The differences between neighbouring values.
pub fn find_dists(line: &Vec<i32>) -> (r: Vec<i32>)
    requires
        forall|i: int| 0 <= i < diffs(ints(line@)).len() ==> fits_i32(#[trigger] diffs(ints(line@))[i]),
    ensures
        ints(r@) == diffs(ints(line@)),
{
    let mut dists: Vec<i32> = Vec::new();
    assert(ints(line@).len() == line@.len());
    if line.len() == 0 {
        assert(ints(dists@) =~= diffs(ints(line@)));
        return dists;
    }
    let mut i: usize = 1;
    while i < line.len()
        invariant
            1 <= i <= line@.len(),
            ints(line@).len() == line@.len(),
            dists@.len() == i - 1,
            forall|k: int| 0 <= k < diffs(ints(line@)).len() ==> fits_i32(#[trigger] diffs(ints(line@))[k]),
            forall|k: int| 0 <= k < dists@.len() ==> dists@[k] as int == #[trigger] diffs(ints(line@))[k],
        decreases line@.len() - i,
    {
        assert(fits_i32(diffs(ints(line@))[i - 1]));
        dists.push(line[i] - line[i - 1]);
        i += 1;
    }
    assert(ints(line@).len() == line@.len());
    assert(dists@.len() == diffs(ints(line@)).len());
    assert(ints(dists@) =~= diffs(ints(line@)));
    dists
}

fn is_all_zero(v: &Vec<i32>) -> (r: bool)
    ensures
        r == all_zero(ints(v@)),
{
    let mut i: usize = 0;
    while i < v.len()
        invariant
            i <= v@.len(),
            forall|k: int| 0 <= k < i ==> v@[k] == 0,
        decreases v@.len() - i,
    {
        if v[i] != 0 {
            assert(ints(v@)[i as int] != 0);
            return false;
        }
        i += 1;
    }
    true
}

/// The next value of the history: the sum of the last values of each level of
/// differences, down to the first level of zeros.
pub fn find_next_value(line: &Vec<i32>) -> (r: i32)
    requires
        extrapolable(ints(line@)),
    ensures
        r == lasts_sum(ints(line@), depth_from(ints(line@), 1)),
{
    let ghost s = ints(line@);
    let ghost d = depth_from(s, 1);
    assert(s.len() == line@.len());
    proof {
        if s.len() >= 1 {
            lemma_depth(s, 1);
        }
        lemma_level_len(s, 1);
        lemma_level_len(s, d);
    }
    let n = line.len();
    let mut last_vals: Vec<i32> = vec![line[n - 1]];
    assert(ints(line@) == level(s, 0));
    proof {
        assert forall|i: int| 0 <= i < diffs(ints(line@)).len() implies fits_i32(#[trigger] diffs(ints(line@))[i]) by {
            assert(level(s, 1)[i] == diffs(ints(line@))[i]);
        }
    }
    let mut dists = find_dists(line);
    let mut k: usize = 1;
    last_vals.push(dists[dists.len() - 1]);
    while !is_all_zero(&dists)
        invariant
            s == ints(line@),
            s.len() == line@.len(),
            n == line@.len(),
            d == depth_from(s, 1),
            extrapolable(s),
            1 <= k <= d,
            d < s.len(),
            forall|m: nat| 1 <= m < d ==> !all_zero(#[trigger] level(s, m)),
            all_zero(level(s, d)),
            ints(dists@) == level(s, k as nat),
            last_vals@.len() == k + 1,
            forall|m: nat| m <= k ==> last_vals@[m as int] as int == #[trigger] level(s, m).last(),
        decreases d - k,
    {
        proof {
            lemma_level_len(s, (k + 1) as nat);
            assert forall|i: int| 0 <= i < diffs(ints(dists@)).len() implies fits_i32(#[trigger] diffs(ints(dists@))[i]) by {
                assert(level(s, (k + 1) as nat)[i] == diffs(ints(dists@))[i]);
            }
        }
        assert(k < d);
        dists = find_dists(&dists);
        k += 1;
        proof {
            lemma_level_len(s, k as nat);
        }
        last_vals.push(dists[dists.len() - 1]);
    }
    let mut total: i32 = last_vals[0];
    let mut j: usize = 1;
    while j < last_vals.len()
        invariant
            s == ints(line@),
            d == depth_from(s, 1),
            extrapolable(s),
            k == d,
            last_vals@.len() == k + 1,
            forall|m: nat| m <= k ==> last_vals@[m as int] as int == #[trigger] level(s, m).last(),
            1 <= j <= k + 1,
            total as int == lasts_sum(s, (j - 1) as nat),
        decreases k + 1 - j,
    {
        assert(fits_i32(lasts_sum(s, j as nat)));
        assert(last_vals@[j as int] as int == level(s, j as nat).last());
        assert(lasts_sum(s, j as nat) == lasts_sum(s, (j - 1) as nat) + level(s, j as nat).last());
        total = total + last_vals[j];
        j += 1;
    }
    total
}


/// A value of the history that is not an `i32`.
#[derive(Debug, Clone, Copy, PartialEq, Eq, Structural)]
pub struct BadValue;

/// Reads the values of one history, separated by white space.
pub fn parse_input_line(line: &str) -> (r: Result<Vec<i32>, BadValue>)
    ensures
        ({
            let ws = words(trimmed(line@));
            &&& r is Ok <==> forall|i: int| 0 <= i < ws.len() ==> is_i32(#[trigger] ws[i])
            &&& r matches Ok(v) ==> v@.len() == ws.len() && forall|i: int|
                0 <= i < ws.len() ==> v@[i] == signed_value(#[trigger] ws[i])
        }),
{
    let parts = split_words(trim(line));
    let ghost ws = words(trimmed(line@));
    let mut values: Vec<i32> = Vec::new();
    let mut i: usize = 0;
    while i < parts.len()
        invariant
            ws == words(trimmed(line@)),
            parts@.map_values(|w: String| w@) == ws,
            i <= parts@.len(),
            values@.len() == i,
            forall|k: int| 0 <= k < i ==> is_i32(#[trigger] ws[k]),
            forall|k: int| 0 <= k < i ==> values@[k] == signed_value(#[trigger] ws[k]),
        decreases parts@.len() - i,
    {
        assert(parts@[i as int]@ == ws[i as int]);
        match parse_i32(parts[i].as_str()) {
            Some(v) => {
                values.push(v);
            },
            None => {
                return Err(BadValue);
            },
        }
        i += 1;
    }
    Ok(values)
}


pub open spec fn ints64(v: Seq<i64>) -> Seq<int> {
    v.map_values(|x: i64| x as int)
}

/// Whether `find_next_value` can extrapolate `line`: its differences reach a level of
/// zeros while values remain, and every level and partial sum up to there fits in
/// `i32`.
pub fn can_extrapolate(line: &Vec<i32>) -> (r: bool)
    ensures
        r == extrapolable(ints(line@)),
{
    let ghost s = ints(line@);
    let ghost d = depth_from(s, 1);
    let n = line.len();
    assert(s.len() == n);
    if n < 2 {
        proof {
            if n == 1 {
                assert(depth_from(s, 1) == 1);
            }
        }
        return false;
    }
    proof {
        lemma_depth(s, 1);
    }
    let mut cur: Vec<i64> = Vec::new();
    let mut i: usize = 0;
    while i < n
        invariant
            n == line@.len(),
            i <= n,
            ints64(cur@) == ints(line@).take(i as int),
        decreases n - i,
    {
        let ghost before = cur@;
        cur.push(line[i] as i64);
        assert(ints64(cur@) =~= ints64(before).push(line@[i as int] as int));
        assert(ints(line@).take(i + 1) =~= ints(line@).take(i as int).push(line@[i as int] as int));
        i += 1;
    }
    assert(ints64(cur@) =~= level(s, 0));
    let mut sum: i64 = line[n - 1] as i64;
    assert(fits_i32(lasts_sum(s, 0)));
    let mut k: usize = 0;
    // Each round holds level k, which fits in i32, with k before the depth.
    loop
        invariant
            s == ints(line@),
            s.len() == n,
            n >= 2,
            d == depth_from(s, 1),
            1 <= d <= n,
            d < n ==> all_zero(level(s, d)),
            forall|m: nat| 1 <= m < d ==> !all_zero(#[trigger] level(s, m)),
            k < d,
            ints64(cur@) == level(s, k as nat),
            cur@.len() == n - k,
            forall|m: nat, q: int| m <= k && 0 <= q < level(s, m).len() ==> fits_i32(#[trigger] level(s, m)[q]),
            forall|j: nat| j <= k ==> fits_i32(#[trigger] lasts_sum(s, j)),
            sum == lasts_sum(s, k as nat),
        decreases n - k,
    {
        proof {
            lemma_level_len(s, (k + 1) as nat);
        }
        if cur.len() < 2 {
            // The next level is empty: the values ran out before a level of zeros.
            assert(k + 1 == n);
            assert(d == n) by {
                if d < n {
                    assert(d == k + 1 || d <= k);
                }
            }
            return false;
        }
        let mut next: Vec<i64> = Vec::new();
        let mut zero = true;
        let mut q: usize = 1;
        while q < cur.len()
            invariant
                s == ints(line@),
                d == depth_from(s, 1),
                k < d,
                ints64(cur@) == level(s, k as nat),
                cur@.len() >= 2,
                forall|t: int| 0 <= t < cur@.len() ==> fits_i32(#[trigger] ints64(cur@)[t]),
                1 <= q <= cur@.len(),
                next@.len() == q - 1,
                forall|t: int| 0 <= t < q - 1 ==> next@[t] as int == #[trigger] diffs(ints64(cur@))[t],
                forall|t: int| 0 <= t < q - 1 ==> fits_i32(#[trigger] diffs(ints64(cur@))[t]),
                zero == forall|t: int| 0 <= t < q - 1 ==> #[trigger] diffs(ints64(cur@))[t] == 0,
            decreases cur@.len() - q,
        {
            assert(fits_i32(ints64(cur@)[q as int]) && fits_i32(ints64(cur@)[q - 1]));
            let v = cur[q] - cur[q - 1];
            assert(v == diffs(ints64(cur@))[q - 1]);
            if v < i32::MIN as i64 || v > i32::MAX as i64 {
                proof {
                    assert(level(s, (k + 1) as nat) == diffs(ints64(cur@)));
                    assert(!fits_i32(level(s, (k + 1) as nat)[q - 1]));
                    assert(k + 1 <= d);
                }
                return false;
            }
            if v != 0 {
                zero = false;
            }
            next.push(v);
            q += 1;
        }
        let ghost nl = level(s, (k + 1) as nat);
        assert(nl == diffs(ints64(cur@)));
        assert(ints64(next@) =~= nl);
        assert(k + 1 <= d);
        let last = next[next.len() - 1];
        assert(lasts_sum(s, (k + 1) as nat) == lasts_sum(s, k as nat) + nl.last());
        let total = sum + last;
        if total < i32::MIN as i64 || total > i32::MAX as i64 {
            return false;
        }
        sum = total;
        cur = next;
        k += 1;
        if zero {
            assert(all_zero(level(s, k as nat)));
            assert(d == k) by {
                if d > k {
                    assert(!all_zero(level(s, k as nat)));
                }
            }
            return true;
        }
    }
}

/// The next value of the history, where `find_next_value` can compute it.
pub fn next_value(line: &Vec<i32>) -> (r: Option<i32>)
    ensures
        r is Some <==> extrapolable(ints(line@)),
        r matches Some(v) ==> v == lasts_sum(ints(line@), depth_from(ints(line@), 1)),
{
    if can_extrapolate(line) {
        Some(find_next_value(line))
    } else {
        None
    }
}

} // verus!
