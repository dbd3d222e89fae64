use vstd::prelude::*;
use vstd::string::*;
use crate::text::{chars_of, parse_usize, is_digit, is_unsigned, decimal, unsigned_digits};

verus! {

#[derive(Debug, Clone, Copy, PartialEq, Eq, Structural, Default)]
pub struct Point {
    pub x: usize,
    pub y: usize,
}

impl Point {
    pub fn new(x: usize, y: usize) -> (r: Point)
        ensures
            r == (Point { x, y }),
    {
        Point { x, y }
    }
}

/// A number of the schematic: the cells its digits cover and its value.
#[derive(Debug, Clone, Copy, PartialEq, Eq, Structural)]
pub struct Number {
    pub start: Point,
    pub end: Point,
    pub num: usize,
}

/// A symbol of the schematic and where it stands.
#[derive(Debug, Clone, Copy, PartialEq, Eq, Structural)]
pub struct Symbol {
    pub pos: Point,
    pub sym: char,
}

impl Number {
    /// The box around the number, one cell wider on each side, fits in `usize`.
    pub open spec fn wf(self) -> bool {
        self.end.x < usize::MAX && self.end.y < usize::MAX
    }

    /// `p` lies in the number's cells or next to one of them, diagonals included.
    pub open spec fn touches(self, p: Point) -> bool {
        &&& self.start.x - 1 <= p.x <= self.end.x + 1
        &&& self.start.y - 1 <= p.y <= self.end.y + 1
    }

    /// The number on row `y` whose digits run from column `start` to `end`.
    pub fn new(y: usize, start: usize, end: usize, num: usize) -> (r: Number)
        ensures
            r == (Number { start: Point { x: start, y }, end: Point { x: end, y }, num }),
    {
        Number { start: Point::new(start, y), end: Point::new(end, y), num }
    }

    /// The top left corner of the box around the number, kept on the grid.
    pub fn bound_tl(&self) -> (r: Point)
        ensures
            r.x == if self.start.x > 0 {
                self.start.x - 1
            } else {
                0
            },
            r.y == if self.start.y > 0 {
                self.start.y - 1
            } else {
                0
            },
    {
        let x = if self.start.x > 0 {
            self.start.x - 1
        } else {
            0
        };
        let y = if self.start.y > 0 {
            self.start.y - 1
        } else {
            0
        };
        Point::new(x, y)
    }

    /// The bottom right corner of the box around the number.
    pub fn bound_br(&self) -> (r: Point)
        requires
            self.wf(),
        ensures
            r == (Point { x: (self.end.x + 1) as usize, y: (self.end.y + 1) as usize }),
    {
        Point::new(self.end.x + 1, self.end.y + 1)
    }

    pub fn is_adjacent(&self, symbol: &Point) -> (r: bool)
        requires
            self.wf(),
        ensures
            r == self.touches(*symbol),
    {
        let btl = self.bound_tl();
        let bbr = self.bound_br();
        symbol.x >= btl.x && symbol.x <= bbr.x && symbol.y >= btl.y && symbol.y <= bbr.y
    }
}

pub open spec fn near_any(n: Number, syms: Seq<Symbol>) -> bool {
    exists|k: int| 0 <= k < syms.len() && n.touches(#[trigger] syms[k].pos)
}

/// The sum of the numbers that touch some symbol.
pub open spec fn part_total(nums: Seq<Number>, syms: Seq<Symbol>) -> int
    decreases nums.len(),
{
    if nums.len() == 0 {
        0
    } else {
        part_total(nums.drop_last(), syms) + if near_any(nums.last(), syms) {
            nums.last().num as int
        } else {
            0
        }
    }
}

proof fn lemma_part_total_grows(nums: Seq<Number>, syms: Seq<Symbol>, i: int)
    requires
        0 <= i <= nums.len(),
    ensures
        0 <= part_total(nums.take(i), syms) <= part_total(nums, syms),
    decreases nums.len(),
{
    if i == nums.len() {
        assert(nums.take(i) =~= nums);
        if nums.len() > 0 {
            lemma_part_total_grows(nums.drop_last(), syms, i - 1);
            assert(nums.drop_last().take(i - 1) =~= nums.drop_last());
        }
    } else {
        lemma_part_total_grows(nums.drop_last(), syms, i);
        assert(nums.drop_last().take(i) =~= nums.take(i));
    }
}

fn near_some_symbol(n: &Number, syms: &Vec<Symbol>) -> (r: bool)
    requires
        n.wf(),
    ensures
        r == near_any(*n, syms@),
{
    let mut k: usize = 0;
    while k < syms.len()
        invariant
            n.wf(),
            k <= syms@.len(),
            forall|j: int| 0 <= j < k ==> !n.touches(#[trigger] syms@[j].pos),
        decreases syms@.len() - k,
    {
        if n.is_adjacent(&syms[k].pos) {
            return true;
        }
        k += 1;
    }
    false
}

/// The sum of the part numbers: those next to a symbol.
pub fn part_number_sum(nums: &Vec<Number>, syms: &Vec<Symbol>) -> (r: usize)
    requires
        forall|i: int| 0 <= i < nums@.len() ==> (#[trigger] nums@[i]).wf(),
        part_total(nums@, syms@) <= usize::MAX,
    ensures
        r == part_total(nums@, syms@),
{
    let mut total: usize = 0;
    let mut i: usize = 0;
    while i < nums.len()
        invariant
            forall|j: int| 0 <= j < nums@.len() ==> (#[trigger] nums@[j]).wf(),
            part_total(nums@, syms@) <= usize::MAX,
            i <= nums@.len(),
            total == part_total(nums@.take(i as int), syms@),
        decreases nums@.len() - i,
    {
        proof {
            lemma_part_total_grows(nums@, syms@, i + 1);
            assert(nums@.take(i + 1).drop_last() =~= nums@.take(i as int));
        }
        let n = &nums[i];
        if near_some_symbol(n, syms) {
            total = total + n.num;
        }
        i += 1;
    }
    assert(nums@.take(i as int) =~= nums@);
    total
}


/// The scan of the first `k` characters of a row: the digit runs closed so far (first
/// and last column), the symbols met (column and character), and where the run still
/// open began.
pub open spec fn scan_row(c: Seq<char>, k: int) -> (Seq<(int, int)>, Seq<(int, char)>, Option<int>)
    decreases k,
{
    if k <= 0 {
        (seq![], seq![], None)
    } else {
        let (runs, syms, open) = scan_row(c, k - 1);
        let j = k - 1;
        let closed = match open {
            Some(st) => runs.push((st, j - 1)),
            None => runs,
        };
        if c[j] == '.' {
            (closed, syms, None)
        } else if is_digit(c[j]) {
            (runs, syms, if open is None { Some(j) } else { open })
        } else {
            (closed, syms.push((j, c[j])), None)
        }
    }
}

/// The digit runs of a row, in order, a run at the end of the row included.
pub open spec fn row_runs(c: Seq<char>) -> Seq<(int, int)> {
    let (runs, _, open) = scan_row(c, c.len() as int);
    match open {
        Some(st) => runs.push((st, c.len() - 1)),
        None => runs,
    }
}

/// The symbols of a row: every character that is neither `.` nor a digit.
pub open spec fn row_symbols(c: Seq<char>) -> Seq<(int, char)> {
    scan_row(c, c.len() as int).1
}

/// Every digit run of every row reads as a `usize`.
pub open spec fn runs_fit(rows: Seq<Seq<char>>) -> bool {
    forall|y: int, k: int|
        0 <= y < rows.len() && 0 <= k < row_runs(rows[y]).len() ==> #[trigger] decimal(
            rows[y].subrange(row_runs(rows[y])[k].0, row_runs(rows[y])[k].1 + 1),
        ) <= usize::MAX
}

/// The numbers of rows `0..n`, row by row.
pub open spec fn all_numbers(rows: Seq<Seq<char>>, n: int) -> Seq<Number>
    decreases n,
{
    if n <= 0 {
        seq![]
    } else {
        let c = rows[n - 1];
        all_numbers(rows, n - 1) + row_runs(c).map_values(
            |q: (int, int)| run_number(c, q, (n - 1) as usize),
        )
    }
}

/// The symbols of rows `0..n`, row by row.
pub open spec fn all_symbols(rows: Seq<Seq<char>>, n: int) -> Seq<Symbol>
    decreases n,
{
    if n <= 0 {
        seq![]
    } else {
        all_symbols(rows, n - 1) + row_symbols(rows[n - 1]).map_values(
            |s: (int, char)| symbol_on(s, (n - 1) as usize),
        )
    }
}

/// The number that the run `q` of row `c` writes, on row `y`.
pub open spec fn run_number(c: Seq<char>, q: (int, int), y: usize) -> Number {
    Number {
        start: Point { x: q.0 as usize, y },
        end: Point { x: q.1 as usize, y },
        num: decimal(c.subrange(q.0, q.1 + 1)) as usize,
    }
}

pub open spec fn symbol_on(s: (int, char), y: usize) -> Symbol {
    Symbol { pos: Point { x: s.0 as usize, y }, sym: s.1 }
}

/// A number too large for `usize`.
#[derive(Debug, Clone, Copy, PartialEq, Eq, Structural)]
pub struct NumberTooLarge;


proof fn lemma_scan_prefix(c: Seq<char>, j: int, k: int)
    requires
        0 <= j <= k,
    ensures
        scan_row(c, j).0.len() <= scan_row(c, k).0.len(),
        scan_row(c, k).0.take(scan_row(c, j).0.len() as int) == scan_row(c, j).0,
    decreases k,
{
    if j < k {
        lemma_scan_prefix(c, j, k - 1);
        let a = scan_row(c, j).0;
        let b = scan_row(c, k - 1).0;
        let d = scan_row(c, k).0;
        assert(d == b || d == b.push(d.last()));
        if d != b {
            assert(d.take(a.len() as int) =~= b.take(a.len() as int));
        }
    } else {
        assert(scan_row(c, k).0.take(scan_row(c, j).0.len() as int) =~= scan_row(c, j).0);
    }
}

proof fn lemma_runs_extend(c: Seq<char>, j: int)
    requires
        0 <= j <= c.len(),
    ensures
        scan_row(c, j).0.len() <= row_runs(c).len(),
        row_runs(c).take(scan_row(c, j).0.len() as int) == scan_row(c, j).0,
{
    lemma_scan_prefix(c, j, c.len() as int);
    let f = scan_row(c, c.len() as int).0;
    let a = scan_row(c, j).0;
    if row_runs(c) != f {
        assert(row_runs(c).take(a.len() as int) =~= f.take(a.len() as int));
    }
}

/// Appends the numbers and symbols of row `y`, read from `line`.
fn scan_line(line: &str, y: usize, nums: &mut Vec<Number>, syms: &mut Vec<Symbol>) -> (r: Result<(), NumberTooLarge>)
    ensures
        ({
            let c = line@;
            let fits = forall|k: int| 0 <= k < row_runs(c).len() ==> #[trigger] decimal(
                c.subrange(row_runs(c)[k].0, row_runs(c)[k].1 + 1),
            ) <= usize::MAX;
            &&& r is Ok <==> fits
            &&& r is Ok ==> final(nums)@ == old(nums)@ + row_runs(c).map_values(
                |q: (int, int)| run_number(c, q, y),
            )
            &&& r is Ok ==> final(syms)@ == old(syms)@ + row_symbols(c).map_values(
                |s: (int, char)| symbol_on(s, y),
            )
        }),
{
    let ghost c = line@;
    let ghost n0 = nums@;
    let ghost s0 = syms@;
    let chars = chars_of(line);
    let n = chars.len();
    let mut open: Option<usize> = None;
    let mut j: usize = 0;
    assert(n0 + scan_row(c, 0).0.map_values(|q: (int, int)| run_number(c, q, y)) =~= nums@);
    assert(scan_row(c, 0).1 =~= Seq::<(int, char)>::empty());
    assert(scan_row(c, 0).1.map_values(|s: (int, char)| symbol_on(s, y)) =~= Seq::<Symbol>::empty());
    assert(s0 + scan_row(c, 0).1.map_values(|s: (int, char)| symbol_on(s, y)) =~= syms@);
    while j < n
        invariant
            chars@ == c,
            c == line@,
            n == c.len(),
            j <= n,
            nums@ == n0 + scan_row(c, j as int).0.map_values(|q: (int, int)| run_number(c, q, y)),
            syms@ == s0 + scan_row(c, j as int).1.map_values(|s: (int, char)| symbol_on(s, y)),
            match scan_row(c, j as int).2 {
                Some(st) => open == Some(st as usize) && 0 <= st < j,
                None => open is None,
            },
            forall|k: int| 0 <= k < scan_row(c, j as int).0.len() ==> #[trigger] decimal(
                c.subrange(scan_row(c, j as int).0[k].0, scan_row(c, j as int).0[k].1 + 1),
            ) <= usize::MAX,
            open matches Some(st) ==> forall|t: int| st <= t < j ==> is_digit(#[trigger] c[t]),
        decreases n - j,
    {
        let ch = chars[j];
        let ghost prev = scan_row(c, j as int);
        let ghost idx = prev.0.len();
        if ch == '.' || !('0' <= ch && ch <= '9') {
            if let Some(st) = open {
                let sub = line.substring_char(st, j);
                assert(sub@ =~= c.subrange(st as int, j as int));
                assert(unsigned_digits(sub@) =~= sub@) by {
                    assert(is_digit(c[st as int]));
                }
                match parse_usize(sub) {
                    Some(v) => {
                        let ghost before = nums@;
                        nums.push(Number::new(y, st, j - 1, v));
                        assert(prev.0.push((st as int, j - 1)).map_values(|q: (int, int)| run_number(c, q, y)) =~= prev.0.map_values(|q: (int, int)| run_number(c, q, y)).push(run_number(c, (st as int, j - 1), y)));
                    },
                    None => {
                        proof {
                            assert(all_digits_in(sub@)) by {
                                assert forall|t: int| 0 <= t < sub@.len() implies is_digit(#[trigger] sub@[t]) by {
                                    assert(sub@[t] == c[st + t]);
                                }
                            }
                            lemma_runs_extend(c, j + 1);
                            assert(scan_row(c, j + 1).0 == prev.0.push((st as int, j - 1)));
                            assert(row_runs(c)[idx as int] == scan_row(c, j + 1).0[idx as int]);
                            assert(decimal(c.subrange(row_runs(c)[idx as int].0, row_runs(c)[idx as int].1 + 1)) > usize::MAX);
                        }
                        return Err(NumberTooLarge);
                    },
                }
                open = None;
            }
            if ch != '.' {
                syms.push(Symbol { pos: Point::new(j, y), sym: ch });
                assert(prev.1.push((j as int, ch)).map_values(|s: (int, char)| symbol_on(s, y)) =~= prev.1.map_values(|s: (int, char)| symbol_on(s, y)).push(symbol_on((j as int, ch), y)));
            }
        } else {
            if open.is_none() {
                open = Some(j);
            }
        }
        j += 1;
    }
    let ghost fin = scan_row(c, n as int);
    if let Some(st) = open {
        let sub = line.substring_char(st, n);
        assert(sub@ =~= c.subrange(st as int, n as int));
        assert(unsigned_digits(sub@) =~= sub@) by {
            assert(is_digit(c[st as int]));
        }
        match parse_usize(sub) {
            Some(v) => {
                nums.push(Number::new(y, st, n - 1, v));
                assert(fin.0.push((st as int, n - 1)).map_values(|q: (int, int)| run_number(c, q, y)) =~= fin.0.map_values(|q: (int, int)| run_number(c, q, y)).push(run_number(c, (st as int, n - 1), y)));
            },
            None => {
                proof {
                    assert(all_digits_in(sub@)) by {
                        assert forall|t: int| 0 <= t < sub@.len() implies is_digit(#[trigger] sub@[t]) by {
                            assert(sub@[t] == c[st + t]);
                        }
                    }
                    assert(row_runs(c) == fin.0.push((st as int, n - 1)));
                    assert(decimal(c.subrange(row_runs(c)[fin.0.len() as int].0, row_runs(c)[fin.0.len() as int].1 + 1)) > usize::MAX);
                }
                return Err(NumberTooLarge);
            },
        }
    }
    proof {
        assert forall|k: int| 0 <= k < row_runs(c).len() implies #[trigger] decimal(
            c.subrange(row_runs(c)[k].0, row_runs(c)[k].1 + 1),
        ) <= usize::MAX by {
            if k < fin.0.len() {
                assert(row_runs(c)[k] == fin.0[k]);
            }
        }
    }
    Ok(())
}

/// Reads the schematic: its numbers (digit runs, with the cells they cover) and its
/// symbols (every character but `.` and the digits), row by row; an error where a
/// number is too large for `usize`.
pub fn scan_schematic(lines: &Vec<String>) -> (r: Result<(Vec<Number>, Vec<Symbol>), NumberTooLarge>)
    ensures
        ({
            let rows = lines@.map_values(|l: String| l@);
            &&& r is Ok <==> runs_fit(rows)
            &&& r matches Ok((nums, syms)) ==> nums@ == all_numbers(rows, rows.len() as int)
                && syms@ == all_symbols(rows, rows.len() as int)
        }),
{
    let ghost rows = lines@.map_values(|l: String| l@);
    let mut nums: Vec<Number> = Vec::new();
    let mut syms: Vec<Symbol> = Vec::new();
    let mut y: usize = 0;
    while y < lines.len()
        invariant
            rows == lines@.map_values(|l: String| l@),
            y <= lines@.len(),
            nums@ == all_numbers(rows, y as int),
            syms@ == all_symbols(rows, y as int),
            forall|k: int, i: int|
                0 <= k < y && 0 <= i < row_runs(rows[k]).len() ==> #[trigger] decimal(
                    rows[k].subrange(row_runs(rows[k])[i].0, row_runs(rows[k])[i].1 + 1),
                ) <= usize::MAX,
        decreases lines@.len() - y,
    {
        assert(rows[y as int] == lines@[y as int]@);
        match scan_line(lines[y].as_str(), y, &mut nums, &mut syms) {
            Ok(()) => {},
            Err(e) => {
                return Err(e);
            },
        }
        y += 1;
    }
    Ok((nums, syms))
}

/// How many of the first `n` numbers touch `p`, and the product of their values.
pub open spec fn touching(nums: Seq<Number>, p: Point, n: int) -> (int, int)
    decreases n,
{
    if n <= 0 {
        (0, 1)
    } else {
        let (k, prod) = touching(nums, p, n - 1);
        if nums[n - 1].touches(p) {
            (k + 1, prod * nums[n - 1].num)
        } else {
            (k, prod)
        }
    }
}

/// The gear ratio of a symbol: for a `*` that exactly two numbers touch, the product
/// of those numbers; else 0.
pub open spec fn gear_ratio(nums: Seq<Number>, s: Symbol) -> int {
    let (k, prod) = touching(nums, s.pos, nums.len() as int);
    if s.sym == '*' && k == 2 {
        prod
    } else {
        0
    }
}

/// The sum of the gear ratios of the first `n` symbols.
pub open spec fn gear_total(nums: Seq<Number>, syms: Seq<Symbol>, n: int) -> int
    decreases n,
{
    if n <= 0 {
        0
    } else {
        gear_total(nums, syms, n - 1) + gear_ratio(nums, syms[n - 1])
    }
}

proof fn lemma_touching_nonneg(nums: Seq<Number>, p: Point, n: int)
    ensures
        touching(nums, p, n).0 >= 0,
        touching(nums, p, n).1 >= 0,
    decreases n,
{
    if n > 0 {
        lemma_touching_nonneg(nums, p, n - 1);
        let prod = touching(nums, p, n - 1).1;
        assert(prod * nums[n - 1].num >= 0) by (nonlinear_arith)
            requires
                prod >= 0,
                nums[n - 1].num >= 0,
        ;
    }
}

proof fn lemma_gear_total_grows(nums: Seq<Number>, syms: Seq<Symbol>, i: int, j: int)
    requires
        0 <= i <= j,
    ensures
        0 <= gear_total(nums, syms, i) <= gear_total(nums, syms, j),
    decreases j,
{
    if i < j {
        lemma_gear_total_grows(nums, syms, i, j - 1);
        lemma_touching_nonneg(nums, syms[j - 1].pos, nums.len() as int);
    } else {
        lemma_gear_total_nonneg(nums, syms, i);
    }
}

proof fn lemma_gear_total_nonneg(nums: Seq<Number>, syms: Seq<Symbol>, n: int)
    ensures
        gear_total(nums, syms, n) >= 0,
    decreases n,
{
    if n > 0 {
        lemma_gear_total_nonneg(nums, syms, n - 1);
        lemma_touching_nonneg(nums, syms[n - 1].pos, nums.len() as int);
    }
}

/// The sum of the gear ratios.
pub fn gear_ratio_sum(nums: &Vec<Number>, syms: &Vec<Symbol>) -> (r: usize)
    requires
        forall|i: int| 0 <= i < nums@.len() ==> (#[trigger] nums@[i]).wf(),
        gear_total(nums@, syms@, syms@.len() as int) <= usize::MAX,
    ensures
        r == gear_total(nums@, syms@, syms@.len() as int),
{
    let mut total: usize = 0;
    let mut i: usize = 0;
    while i < syms.len()
        invariant
            forall|t: int| 0 <= t < nums@.len() ==> (#[trigger] nums@[t]).wf(),
            gear_total(nums@, syms@, syms@.len() as int) <= usize::MAX,
            i <= syms@.len(),
            total == gear_total(nums@, syms@, i as int),
        decreases syms@.len() - i,
    {
        let s = syms[i];
        proof {
            lemma_gear_total_grows(nums@, syms@, i + 1, syms@.len() as int);
        }
        if s.sym == '*' {
            // Count the numbers touching the symbol, keeping the first two.
            let mut k: usize = 0;
            let mut first: usize = 0;
            let mut second: usize = 0;
            let mut m: usize = 0;
            while m < nums.len()
                invariant
                    forall|t: int| 0 <= t < nums@.len() ==> (#[trigger] nums@[t]).wf(),
                    m <= nums@.len(),
                    k <= m,
                    k <= 2 ==> k == touching(nums@, s.pos, m as int).0,
                    k == 0 ==> touching(nums@, s.pos, m as int).1 == 1,
                    k == 1 ==> touching(nums@, s.pos, m as int).1 == first,
                    k == 2 ==> touching(nums@, s.pos, m as int).1 == first * second,
                    k > 2 ==> touching(nums@, s.pos, m as int).0 > 2,
                decreases nums@.len() - m,
            {
                if nums[m].is_adjacent(&s.pos) {
                    if k == 0 {
                        first = nums[m].num;
                    } else if k == 1 {
                        second = nums[m].num;
                    }
                    if k <= 2 {
                        k += 1;
                    }
                }
                m += 1;
            }
            if k == 2 {
                assert(gear_ratio(nums@, s) == first * second);
                total = total + first * second;
            }
        }
        i += 1;
    }
    total
}

pub open spec fn all_digits_in(s: Seq<char>) -> bool {
    forall|t: int| 0 <= t < s.len() ==> is_digit(#[trigger] s[t])
}

} // verus!
