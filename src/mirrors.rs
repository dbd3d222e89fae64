use vstd::prelude::*;
use crate::text::chars_of;

verus! {

#[derive(Debug, Clone, Copy, PartialEq, Eq, Structural)]
pub enum Square {
    /// `.`
    Ash,
    /// `#`
    Rock,
}

/// A character that names no square.
#[derive(Debug, Clone, Copy, PartialEq, Eq, Structural)]
pub struct InvalidSquare {
    pub c: char,
}

impl Square {
    pub open spec fn of_char(c: char) -> Option<Square> {
        if c == '.' {
            Some(Square::Ash)
        } else if c == '#' {
            Some(Square::Rock)
        } else {
            None
        }
    }

    pub fn try_from(value: char) -> (r: Result<Square, InvalidSquare>)
        ensures
            match Square::of_char(value) {
                Some(s) => r == Ok::<Square, InvalidSquare>(s),
                None => r == Err::<Square, InvalidSquare>(InvalidSquare { c: value }),
            },
    {
        match value {
            '.' => Ok(Square::Ash),
            '#' => Ok(Square::Rock),
            _ => Err(InvalidSquare { c: value }),
        }
    }
}

pub fn compare_sq_vec(a: &Vec<Square>, b: &Vec<Square>) -> (r: bool)
    ensures
        r == (a@ == b@),
{
    if a.len() != b.len() {
        return false;
    }
    let mut i: usize = 0;
    while i < a.len()
        invariant
            a@.len() == b@.len(),
            i <= a@.len(),
            forall|k: int| 0 <= k < i ==> a@[k] == b@[k],
        decreases a@.len() - i,
    {
        if a[i] != b[i] {
            return false;
        }
        i += 1;
    }
    assert(a@ =~= b@);
    true
}

/// A pattern of ash and rocks.
#[derive(Debug, Clone, PartialEq, Eq)]
pub struct Pattern {
    pub width: usize,
    pub height: usize,
    pub grid: Vec<Vec<Square>>,
}

/// Why a pattern could not be read.
#[derive(Debug, Clone, Copy, PartialEq, Eq, Structural)]
pub enum PatternError {
    /// No rows.
    Empty,
    /// A character that names no square.
    InvalidSquare,
}

impl Pattern {
    /// Every row is `width` long, there are `height` of them, at least one of each,
    /// and both fit the signed indices used to look around a line of reflection.
    pub open spec fn wf(&self) -> bool {
        &&& self.height == self.grid@.len()
        &&& self.height >= 1
        &&& self.width >= 1
        &&& forall|r: int| 0 <= r < self.height ==> (#[trigger] self.grid@[r])@.len() == self.width
        &&& 2 * self.width <= i32::MAX
        &&& 2 * self.height <= i32::MAX
        &&& self.width + 100 * self.height <= usize::MAX
    }

    /// Column `i`, top to bottom.
    pub open spec fn column(&self, i: int) -> Seq<Square> {
        Seq::new(self.height as nat, |r: int| self.grid@[r]@[i])
    }

    pub open spec fn col_at(&self, i: int) -> Option<Seq<Square>> {
        if 0 <= i < self.width {
            Some(self.column(i))
        } else {
            None
        }
    }

    pub open spec fn row_at(&self, i: int) -> Option<Seq<Square>> {
        if 0 <= i < self.height {
            Some(self.grid@[i]@)
        } else {
            None
        }
    }

    /// Columns `i` and `j` are equal, or one of them lies off the pattern.
    pub open spec fn cols_agree(&self, i: int, j: int) -> bool {
        match (self.col_at(i), self.col_at(j)) {
            (Some(a), Some(b)) => a == b,
            _ => true,
        }
    }

    pub open spec fn rows_agree(&self, i: int, j: int) -> bool {
        match (self.row_at(i), self.row_at(j)) {
            (Some(a), Some(b)) => a == b,
            _ => true,
        }
    }

    /// The pattern mirrors across the line between columns `i` and `i + 1`.
    pub open spec fn col_mirror(&self, i: int) -> bool {
        forall|j: int| 0 <= j < self.width ==> #[trigger] self.cols_agree(i - j, i + 1 + j)
    }

    pub open spec fn row_mirror(&self, i: int) -> bool {
        forall|j: int| 0 <= j < self.height ==> #[trigger] self.rows_agree(i - j, i + 1 + j)
    }

    /// The first column after which the pattern mirrors, if any.
    pub open spec fn first_col_mirror(&self, i: int) -> Option<int>
        decreases self.width - i,
    {
        if i < 0 || i >= self.width - 1 {
            None
        } else if self.col_mirror(i) {
            Some(i)
        } else {
            self.first_col_mirror(i + 1)
        }
    }

    pub open spec fn first_row_mirror(&self, i: int) -> Option<int>
        decreases self.height - i,
    {
        if i < 0 || i >= self.height - 1 {
            None
        } else if self.row_mirror(i) {
            Some(i)
        } else {
            self.first_row_mirror(i + 1)
        }
    }

    /// The summary: columns left of the vertical line of reflection, plus 100 times
    /// the rows above the horizontal one.
    pub open spec fn summary(&self) -> int {
        let c = match self.first_col_mirror(0) {
            Some(i) => i + 1,
            None => 0,
        };
        let r = match self.first_row_mirror(0) {
            Some(i) => i + 1,
            None => 0,
        };
        c + 100 * r
    }

    proof fn lemma_first_col_range(&self, k: int)
        requires
            k >= 0,
        ensures
            self.first_col_mirror(k) matches Some(i) ==> k <= i < self.width - 1,
        decreases self.width - k,
    {
        if k < self.width - 1 {
            self.lemma_first_col_range(k + 1);
        }
    }

    proof fn lemma_first_row_range(&self, k: int)
        requires
            k >= 0,
        ensures
            self.first_row_mirror(k) matches Some(i) ==> k <= i < self.height - 1,
        decreases self.height - k,
    {
        if k < self.height - 1 {
            self.lemma_first_row_range(k + 1);
        }
    }

    pub fn new(grid: Vec<Vec<Square>>) -> (r: Pattern)
        requires
            grid@.len() >= 1,
        ensures
            r.grid == grid,
            r.height == grid@.len(),
            r.width == grid@[0]@.len(),
    {
        let height = grid.len();
        let width = grid[0].len();
        Pattern { width, height, grid }
    }

    /// Reads a pattern, one row per line.
    pub fn parse(input: &Vec<String>) -> (r: Result<Pattern, PatternError>)
        ensures
            input@.len() == 0 <==> r == Err::<Pattern, PatternError>(PatternError::Empty),
            r == Err::<Pattern, PatternError>(PatternError::InvalidSquare) <==> input@.len() > 0
                && exists|y: int, x: int|
                0 <= y < input@.len() && 0 <= x < input@[y]@.len() && (#[trigger] Square::of_char(
                    input@[y]@[x],
                )) is None,
            r matches Ok(p) ==> p.grid@.len() == input@.len() && p.height == input@.len() && p.width
                == input@[0]@.len() && forall|y: int, x: int|
                0 <= y < input@.len() && 0 <= x < input@[y]@.len() ==> (#[trigger] p.grid@[y]@[x])
                    == match Square::of_char(input@[y]@[x]) {
                    Some(s) => s,
                    None => Square::Ash,
                } && p.grid@[y]@.len() == input@[y]@.len(),
    {
        if input.len() == 0 {
            return Err(PatternError::Empty);
        }
        let mut grid: Vec<Vec<Square>> = Vec::new();
        let mut y: usize = 0;
        while y < input.len()
            invariant
                input@.len() > 0,
                y <= input@.len(),
                grid@.len() == y,
                forall|k: int, x: int|
                    0 <= k < y && 0 <= x < input@[k]@.len() ==> (#[trigger] Square::of_char(
                        input@[k]@[x],
                    )) is Some,
                forall|k: int| 0 <= k < y ==> (#[trigger] grid@[k])@.len() == input@[k]@.len(),
                forall|k: int, x: int|
                    0 <= k < y && 0 <= x < input@[k]@.len() ==> Square::of_char(input@[k]@[x])
                        == Some(#[trigger] grid@[k]@[x]),
            decreases input@.len() - y,
        {
            let chars = chars_of(input[y].as_str());
            let mut row: Vec<Square> = Vec::new();
            let mut x: usize = 0;
            while x < chars.len()
                invariant
                    y < input@.len(),
                    chars@ == input@[y as int]@,
                    x <= chars@.len(),
                    row@.len() == x,
                    forall|i: int| 0 <= i < x ==> Square::of_char(chars@[i]) == Some(#[trigger] row@[i]),
                decreases chars@.len() - x,
            {
                match Square::try_from(chars[x]) {
                    Ok(s) => {
                        row.push(s);
                    },
                    Err(_) => {
                        assert(Square::of_char(input@[y as int]@[x as int]) is None);
                        return Err(PatternError::InvalidSquare);
                    },
                }
                x += 1;
            }
            assert forall|i: int| 0 <= i < input@[y as int]@.len() implies (#[trigger] Square::of_char(
                input@[y as int]@[i],
            )) is Some by {
                assert(Square::of_char(chars@[i]) == Some(row@[i]));
            }
            let ghost prev = grid@;
            grid.push(row);
            assert(forall|k: int| 0 <= k < y ==> grid@[k] == prev[k]);
            y += 1;
        }
        Ok(Pattern::new(grid))
    }

    pub fn col(&self, i: i32) -> (r: Option<Vec<Square>>)
        requires
            self.wf(),
        ensures
            match self.col_at(i as int) {
                Some(c) => r matches Some(v) && v@ == c,
                None => r is None,
            },
    {
        if i < 0 || i >= self.width as i32 {
            return None;
        }
        let x = i as usize;
        let mut v: Vec<Square> = Vec::new();
        let mut r: usize = 0;
        while r < self.grid.len()
            invariant
                self.wf(),
                0 <= x < self.width,
                r <= self.height,
                v@ == self.column(x as int).take(r as int),
            decreases self.height - r,
        {
            let row = &self.grid[r];
            assert(row@.len() == self.width);
            v.push(row[x]);
            r += 1;
            assert(v@ =~= self.column(x as int).take(r as int));
        }
        assert(v@ =~= self.column(x as int));
        Some(v)
    }

    pub fn row(&self, i: i32) -> (r: Option<Vec<Square>>)
        requires
            self.wf(),
        ensures
            match self.row_at(i as int) {
                Some(c) => r matches Some(v) && v@ == c,
                None => r is None,
            },
    {
        if i < 0 || i >= self.height as i32 {
            return None;
        }
        let src = &self.grid[i as usize];
        let mut v: Vec<Square> = Vec::new();
        let mut k: usize = 0;
        while k < src.len()
            invariant
                k <= src@.len(),
                v@ == src@.take(k as int),
            decreases src@.len() - k,
        {
            v.push(src[k]);
            k += 1;
            assert(v@ =~= src@.take(k as int));
        }
        assert(v@ =~= src@);
        Some(v)
    }

    pub fn cols_match(&self, i: i32, j: i32) -> (r: bool)
        requires
            self.wf(),
        ensures
            r == self.cols_agree(i as int, j as int),
    {
        let ca = self.col(i);
        let cb = self.col(j);
        match (ca, cb) {
            (Some(a), Some(b)) => compare_sq_vec(&a, &b),
            _ => true,
        }
    }

    pub fn rows_match(&self, i: i32, j: i32) -> (r: bool)
        requires
            self.wf(),
        ensures
            r == self.rows_agree(i as int, j as int),
    {
        let ra = self.row(i);
        let rb = self.row(j);
        match (ra, rb) {
            (Some(a), Some(b)) => compare_sq_vec(&a, &b),
            _ => true,
        }
    }

    /// The first column after which the pattern mirrors.
    pub fn get_col_reflection(&self) -> (r: Option<usize>)
        requires
            self.wf(),
        ensures
            match self.first_col_mirror(0) {
                Some(i) => r == Some(i as usize),
                None => r is None,
            },
    {
        let mut i: usize = 0;
        while i < self.width - 1
            invariant
                self.wf(),
                i <= self.width - 1,
                self.first_col_mirror(0) == self.first_col_mirror(i as int),
            decreases self.width - i,
        {
            let mut j: usize = 0;
            let mut ok = true;
            while j < self.width
                invariant
                    self.wf(),
                    i < self.width - 1,
                    j <= self.width,
                    ok ==> forall|k: int| 0 <= k < j ==> #[trigger] self.cols_agree(i - k, i + 1 + k),
                    !ok ==> !self.col_mirror(i as int),
                decreases self.width - j,
            {
                if ok && !self.cols_match(i as i32 - j as i32, i as i32 + 1 + j as i32) {
                    ok = false;
                }
                j += 1;
            }
            if ok {
                return Some(i);
            }
            i += 1;
        }
        None
    }

    /// The first row after which the pattern mirrors.
    pub fn get_row_reflection(&self) -> (r: Option<usize>)
        requires
            self.wf(),
        ensures
            match self.first_row_mirror(0) {
                Some(i) => r == Some(i as usize),
                None => r is None,
            },
    {
        let mut i: usize = 0;
        while i < self.height - 1
            invariant
                self.wf(),
                i <= self.height - 1,
                self.first_row_mirror(0) == self.first_row_mirror(i as int),
            decreases self.height - i,
        {
            let mut j: usize = 0;
            let mut ok = true;
            while j < self.height
                invariant
                    self.wf(),
                    i < self.height - 1,
                    j <= self.height,
                    ok ==> forall|k: int| 0 <= k < j ==> #[trigger] self.rows_agree(i - k, i + 1 + k),
                    !ok ==> !self.row_mirror(i as int),
                decreases self.height - j,
            {
                if ok && !self.rows_match(i as i32 - j as i32, i as i32 + 1 + j as i32) {
                    ok = false;
                }
                j += 1;
            }
            if ok {
                return Some(i);
            }
            i += 1;
        }
        None
    }

    pub fn summarize(&self) -> (r: usize)
        requires
            self.wf(),
        ensures
            r == self.summary(),
    {
        proof {
            self.lemma_first_col_range(0);
            self.lemma_first_row_range(0);
        }
        let col_sum = match self.get_col_reflection() {
            Some(i) => i + 1,
            None => 0,
        };
        let row_sum = match self.get_row_reflection() {
            Some(i) => i + 1,
            None => 0,
        };
        col_sum + (row_sum * 100)
    }
}

} // verus!
