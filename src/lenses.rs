use vstd::prelude::*;
use vstd::string::*;
use crate::text::{find_char, lemma_find_char, position_of, chars_of, parse_u32, trim, trimmed, is_unsigned, decimal, unsigned_digits};

verus! {

/// The number of boxes that lenses are sorted into.
pub const N_BOXES: usize = 256;

pub fn get_ascii_code(c: char) -> (r: u32)
    ensures
        r == c as u32,
{
    c as u32
}

/// One step of the hash: add the character's code, multiply by 17, keep the remainder
/// modulo 256.
pub open spec fn hash_step(state: int, c: char) -> int {
    ((state + c as int) * 17) % 256
}

/// The hash of a string: the steps from 0, one character after another.
pub open spec fn hash_of(s: Seq<char>) -> int
    decreases s.len(),
{
    if s.len() == 0 {
        0
    } else {
        hash_step(hash_of(s.drop_last()), s.last())
    }
}

pub fn hash_char(state: u32, c: char) -> (r: u32)
    requires
        (state + c as u32) * 17 <= u32::MAX,
    ensures
        r == hash_step(state as int, c),
{
    let ascii_code = get_ascii_code(c);
    let next = state + ascii_code;
    let next = next * 17;
    let next = next % 256;
    next
}

pub fn hash_string(s: &str) -> (r: u32)
    ensures
        r == hash_of(s@),
        r < N_BOXES,
{
    let c = chars_of(s);
    let mut state: u32 = 0;
    let mut i: usize = 0;
    while i < c.len()
        invariant
            c@ == s@,
            i <= c@.len(),
            state == hash_of(s@.take(i as int)),
            state < 256,
        decreases c@.len() - i,
    {
        assert(s@.take(i + 1).drop_last() =~= s@.take(i as int));
        let ch = c[i];
        proof {
            vstd::utf8::char_is_scalar(ch);
        }
        state = hash_char(state, ch);
        i += 1;
    }
    assert(s@.take(i as int) =~= s@);
    state
}

/// A lens: the label that names it and its focal length.
#[derive(Debug, Clone, PartialEq, Eq)]
pub struct Lens {
    pub label: String,
    pub focal_length: u32,
}

/// What a lens is: its label's characters and its focal length.
pub type LensModel = (Seq<char>, u32);

impl View for Lens {
    type V = LensModel;

    open spec fn view(&self) -> LensModel {
        (self.label@, self.focal_length)
    }
}

pub open spec fn box_models(b: Seq<Lens>) -> Seq<LensModel> {
    b.map_values(|l: Lens| l@)
}

pub open spec fn state_models(s: Seq<Vec<Lens>>) -> Seq<Seq<LensModel>> {
    s.map_values(|b: Vec<Lens>| box_models(b@))
}

/// The operation that a step of the sequence writes.
#[derive(Debug, Clone, PartialEq, Eq)]
pub enum Operation {
    SetLens(Lens),
    Unset(String),
}

/// Why a step of the sequence could not be read.
#[derive(Debug, Clone, Copy, PartialEq, Eq, Structural)]
pub enum LensError {
    /// Not exactly one `=` in a step that sets a lens.
    Malformed,
    /// A focal length that is not an unsigned 32-bit number.
    BadFocalLength,
}

pub open spec fn count_char(s: Seq<char>, c: char) -> int
    decreases s.len(),
{
    if s.len() == 0 {
        0
    } else {
        count_char(s.drop_last(), c) + if s.last() == c {
            1int
        } else {
            0int
        }
    }
}

fn count_of(v: &Vec<char>, c: char) -> (r: usize)
    ensures
        r == count_char(v@, c),
{
    let mut n: usize = 0;
    let mut i: usize = 0;
    while i < v.len()
        invariant
            i <= v@.len(),
            n == count_char(v@.take(i as int), c),
            n <= i,
        decreases v@.len() - i,
    {
        assert(v@.take(i + 1).drop_last() =~= v@.take(i as int));
        if v[i] == c {
            n += 1;
        }
        i += 1;
    }
    assert(v@.take(i as int) =~= v@);
    n
}

impl Lens {
    pub fn new(label: &str, focal_length: u32) -> (r: Lens)
        ensures
            r@ == (label@, focal_length),
    {
        Lens { label: label.to_owned(), focal_length }
    }

    /// A copy of this lens.
    pub fn copied(&self) -> (r: Lens)
        ensures
            r@ == self@,
    {
        Lens { label: self.label.clone(), focal_length: self.focal_length }
    }

    /// Reads `label=focal_length`, with white space allowed around either part.
    pub fn parse(s: &str) -> (r: Result<Lens, LensError>)
        ensures
            r matches Ok(l) ==> lens_text(s@) == Ok::<LensModel, LensError>(l@),
            r matches Err(e) ==> lens_text(s@) == Err::<LensModel, LensError>(e),
    {
        let chars = chars_of(s);
        if count_of(&chars, '=') != 1 {
            return Err(LensError::Malformed);
        }
        let eq = position_of(&chars, '=');
        proof {
            lemma_find_char(s@, '=');
            lemma_count_found(s@, '=');
        }
        let label = trim(s.substring_char(0, eq));
        let focal = trim(s.substring_char(eq + 1, chars.len()));
        match parse_u32(focal) {
            Some(focal_length) => Ok(Lens::new(label, focal_length)),
            None => Err(LensError::BadFocalLength),
        }
    }

    pub fn get_hash(&self) -> (r: u32)
        ensures
            r == hash_of(self.label@),
            r < N_BOXES,
    {
        hash_string(self.label.as_str())
    }
}

/// The lens that `label=focal_length` writes, white space around either part
/// left out.
pub open spec fn lens_text(s: Seq<char>) -> Result<LensModel, LensError> {
    if count_char(s, '=') != 1 {
        Err(LensError::Malformed)
    } else if !is_unsigned(trimmed(lens_after(s)), u32::MAX as int) {
        Err(LensError::BadFocalLength)
    } else {
        Ok((trimmed(lens_before(s)), decimal(unsigned_digits(trimmed(lens_after(s)))) as u32))
    }
}

/// What stands before the first `=`.
pub open spec fn lens_before(s: Seq<char>) -> Seq<char> {
    s.subrange(0, find_char(s, '='))
}

/// What stands after the first `=`.
pub open spec fn lens_after(s: Seq<char>) -> Seq<char> {
    s.subrange(find_char(s, '=') + 1, s.len() as int)
}

proof fn lemma_count_found(s: Seq<char>, c: char)
    ensures
        count_char(s, c) > 0 ==> find_char(s, c) < s.len(),
    decreases s.len(),
{
    lemma_find_char(s, c);
    if find_char(s, c) == s.len() {
        lemma_count_none(s, c);
    }
}

proof fn lemma_count_none(s: Seq<char>, c: char)
    requires
        forall|k: int| 0 <= k < s.len() ==> s[k] != c,
    ensures
        count_char(s, c) == 0,
    decreases s.len(),
{
    if s.len() > 0 {
        assert(s[s.len() - 1] != c);
        lemma_count_none(s.drop_last(), c);
    }
}

impl Operation {
    /// The label that the operation concerns.
    pub open spec fn label(&self) -> Seq<char> {
        match self {
            Operation::SetLens(l) => l.label@,
            Operation::Unset(label) => label@,
        }
    }

    /// Reads a step: `label=focal_length` sets a lens; otherwise what stands before
    /// the first `-` is the label of a lens to take out.
    pub fn parse(s: &str) -> (r: Result<Operation, LensError>)
        ensures
            find_char(s@, '=') < s@.len() ==> match r {
                Ok(Operation::SetLens(l)) => lens_text(s@) == Ok::<LensModel, LensError>(l@),
                Ok(Operation::Unset(_)) => false,
                Err(e) => lens_text(s@) == Err::<LensModel, LensError>(e),
            },
            find_char(s@, '=') == s@.len() ==> (r matches Ok(Operation::Unset(label)) && label@
                == s@.subrange(0, find_char(s@, '-'))),
    {
        let chars = chars_of(s);
        proof {
            lemma_find_char(s@, '=');
            lemma_find_char(s@, '-');
        }
        if position_of(&chars, '=') < chars.len() {
            let lens = Lens::parse(s)?;
            return Ok(Operation::SetLens(lens));
        }
        let dash = position_of(&chars, '-');
        Ok(Operation::Unset(s.substring_char(0, dash).to_owned()))
    }

    pub fn get_hash(&self) -> (r: u32)
        ensures
            r == hash_of(self.label()),
            r < N_BOXES,
    {
        match self {
            Operation::SetLens(lens) => lens.get_hash(),
            Operation::Unset(label) => hash_string(label.as_str()),
        }
    }
}


/// The box without the lenses labelled `label`, in the order that stays.
pub open spec fn without_label(b: Seq<LensModel>, label: Seq<char>) -> Seq<LensModel>
    decreases b.len(),
{
    if b.len() == 0 {
        b
    } else {
        let rest = without_label(b.drop_last(), label);
        if b.last().0 == label {
            rest
        } else {
            rest.push(b.last())
        }
    }
}

pub open spec fn has_label(b: Seq<LensModel>, label: Seq<char>) -> bool {
    exists|j: int| 0 <= j < b.len() && (#[trigger] b[j]).0 == label
}

/// The box with each lens labelled like `lens` replaced by it.
pub open spec fn replace_label(b: Seq<LensModel>, lens: LensModel) -> Seq<LensModel> {
    b.map_values(
        |l: LensModel|
            if l.0 == lens.0 {
                lens
            } else {
                l
            },
    )
}

/// The box after `op`: a lens set replaces the lens of its label in place, or joins
/// at the back where there is none; a label unset takes out the lenses it names.
pub open spec fn apply_op(b: Seq<LensModel>, op: Operation) -> Seq<LensModel> {
    match op {
        Operation::SetLens(l) => if has_label(b, l@.0) {
            replace_label(b, l@)
        } else {
            b.push(l@)
        },
        Operation::Unset(label) => without_label(b, label@),
    }
}

/// The 256 boxes, all empty.
pub fn init_state() -> (r: Vec<Vec<Lens>>)
    ensures
        r@.len() == N_BOXES,
        forall|i: int| 0 <= i < N_BOXES ==> (#[trigger] r@[i])@.len() == 0,
{
    let mut state: Vec<Vec<Lens>> = Vec::new();
    let mut i: usize = 0;
    while i < N_BOXES
        invariant
            i <= N_BOXES,
            state@.len() == i,
            forall|k: int| 0 <= k < i ==> (#[trigger] state@[k])@.len() == 0,
        decreases N_BOXES - i,
    {
        state.push(Vec::new());
        i += 1;
    }
    state
}

/// Carries out `c` on the box that the hash of its label names.
pub fn update_state(state: &mut Vec<Vec<Lens>>, c: &Operation)
    requires
        old(state)@.len() == N_BOXES,
    ensures
        state_models(final(state)@) == state_models(old(state)@).update(
            hash_of(c.label()),
            apply_op(state_models(old(state)@)[hash_of(c.label())], *c),
        ),
{
    let box_idx = c.get_hash() as usize;
    let ghost b = box_models(state@[box_idx as int]@);
    let mut next: Vec<Lens> = Vec::new();
    let mut j: usize = 0;
    {
        let old_box = &state[box_idx];
        match c {
            Operation::Unset(label) => {
                while j < old_box.len()
                    invariant
                        b == box_models(old_box@),
                        j <= old_box@.len(),
                        box_models(next@) == without_label(b.take(j as int), label@),
                    decreases old_box@.len() - j,
                {
                    assert(b.take(j + 1).drop_last() =~= b.take(j as int));
                    let l = &old_box[j];
                    if l.label != *label {
                        let ghost before = next@;
                        next.push(l.copied());
                        assert(box_models(next@) =~= box_models(before).push(l@));
                    }
                    j += 1;
                }
                assert(b.take(j as int) =~= b);
            },
            Operation::SetLens(lens) => {
                let mut found = false;
                while j < old_box.len()
                    invariant
                        b == box_models(old_box@),
                        j <= old_box@.len(),
                        box_models(next@) == replace_label(b.take(j as int), lens@),
                        found == has_label(b.take(j as int), lens@.0),
                    decreases old_box@.len() - j,
                {
                    let l = &old_box[j];
                    let ghost before = next@;
                    assert(b[j as int] == l@);
                    assert(replace_label(b.take(j + 1), lens@) =~= replace_label(
                        b.take(j as int),
                        lens@,
                    ).push(replace_label(b.take(j + 1), lens@)[j as int]));
                    if l.label == lens.label {
                        next.push(lens.copied());
                        found = true;
                    } else {
                        next.push(l.copied());
                    }
                    assert(box_models(next@) =~= replace_label(b.take(j + 1), lens@));
                    assert(b.take(j + 1)[j as int] == b[j as int]);
                    assert(found == has_label(b.take(j + 1), lens@.0)) by {
                        if found && !has_label(b.take(j as int), lens@.0) {
                            assert(b.take(j + 1)[j as int].0 == lens@.0);
                        }
                        if has_label(b.take(j + 1), lens@.0) && !has_label(b.take(j as int), lens@.0) {
                            let w = choose|w: int| 0 <= w < j + 1 && (#[trigger] b.take(j + 1)[w]).0 == lens@.0;
                            if w < j {
                                assert(b.take(j as int)[w] == b.take(j + 1)[w]);
                            }
                        }
                        if has_label(b.take(j as int), lens@.0) {
                            let w = choose|w: int| 0 <= w < j && (#[trigger] b.take(j as int)[w]).0 == lens@.0;
                            assert(b.take(j as int)[w] == b.take(j + 1)[w]);
                        }
                    }
                    j += 1;
                }
                assert(b.take(j as int) =~= b);
                if !found {
                    assert(replace_label(b, lens@) =~= b);
                    let ghost before = next@;
                    next.push(lens.copied());
                    assert(box_models(next@) =~= box_models(before).push(lens@));
                }
            },
        }
    }
    let ghost old_state = state@;
    state[box_idx] = next;
    assert(state_models(state@) =~= state_models(old_state).update(
        box_idx as int,
        apply_op(b, *c),
    ));
}


/// The focusing power of box `i`: for the lens in slot `j` (from 0), `(i + 1) *
/// (j + 1)` times its focal length, summed.
pub open spec fn box_score(b: Seq<LensModel>, i: int) -> int
    decreases b.len(),
{
    if b.len() == 0 {
        0
    } else {
        box_score(b.drop_last(), i) + (i + 1) * b.len() * b.last().1
    }
}

/// The focusing power of all boxes.
pub open spec fn total_score(s: Seq<Seq<LensModel>>) -> int
    decreases s.len(),
{
    if s.len() == 0 {
        0
    } else {
        total_score(s.drop_last()) + box_score(s.last(), s.len() - 1)
    }
}

proof fn lemma_box_score_grows(b: Seq<LensModel>, i: int, j: int)
    requires
        0 <= i,
        0 <= j <= b.len(),
    ensures
        0 <= box_score(b.take(j), i) <= box_score(b, i),
    decreases b.len(),
{
    if j == b.len() {
        assert(b.take(j) =~= b);
        if b.len() > 0 {
            lemma_box_score_grows(b.drop_last(), i, b.len() - 1);
            assert(b.drop_last().take(b.len() - 1) =~= b.drop_last());
            assert((i + 1) * b.len() * b.last().1 >= 0) by (nonlinear_arith)
                requires
                    i >= 0,
                    b.len() >= 0,
                    b.last().1 >= 0,
            ;
        }
    } else {
        lemma_box_score_grows(b.drop_last(), i, j);
        assert(b.drop_last().take(j) =~= b.take(j));
        assert((i + 1) * b.len() * b.last().1 >= 0) by (nonlinear_arith)
            requires
                i >= 0,
                b.len() >= 0,
                b.last().1 >= 0,
        ;
    }
}

proof fn lemma_total_score_grows(s: Seq<Seq<LensModel>>, k: int)
    requires
        0 <= k <= s.len(),
    ensures
        0 <= total_score(s.take(k)) <= total_score(s),
    decreases s.len(),
{
    if s.len() > 0 {
        lemma_box_score_grows(s.last(), s.len() - 1, s.last().len() as int);
        assert(s.last().take(s.last().len() as int) =~= s.last());
        if k == s.len() {
            assert(s.take(k) =~= s);
            lemma_total_score_grows(s.drop_last(), k - 1);
            assert(s.drop_last().take(k - 1) =~= s.drop_last());
        } else {
            lemma_total_score_grows(s.drop_last(), k);
            assert(s.drop_last().take(k) =~= s.take(k));
        }
    } else {
        assert(s.take(k) =~= s);
    }
}

/// The total focusing power of the boxes.
pub fn score_state(state: &Vec<Vec<Lens>>) -> (r: u32)
    requires
        forall|i: int| 0 <= i < state@.len() ==> (i + 1) * (#[trigger] state@[i])@.len() <= u32::MAX,
        total_score(state_models(state@)) <= u32::MAX,
    ensures
        r == total_score(state_models(state@)),
{
    let ghost s = state_models(state@);
    let mut total: u32 = 0;
    let mut i: usize = 0;
    while i < state.len()
        invariant
            s == state_models(state@),
            i <= state@.len(),
            total == total_score(s.take(i as int)),
            total_score(s) <= u32::MAX,
            forall|a: int| 0 <= a < state@.len() ==> (a + 1) * (#[trigger] state@[a])@.len() <= u32::MAX,
        decreases state@.len() - i,
    {
        let b = &state[i];
        assert((i + 1) * b@.len() <= u32::MAX);
        let ghost bm = s[i as int];
        assert(bm == box_models(b@));
        proof {
            lemma_total_score_grows(s, i + 1);
            assert(s.take(i + 1).drop_last() =~= s.take(i as int));
            lemma_box_score_grows(bm, i as int, bm.len() as int);
            assert(bm.take(bm.len() as int) =~= bm);
        }
        let mut j: usize = 0;
        while j < b.len()
            invariant
                s == state_models(state@),
                i < state@.len(),
                b == state@[i as int],
                bm == box_models(b@),
                j <= b@.len(),
                total == total_score(s.take(i as int)) + box_score(bm.take(j as int), i as int),
                total_score(s.take(i as int)) + box_score(bm, i as int) <= u32::MAX,
                (i + 1) * b@.len() <= u32::MAX,
            decreases b@.len() - j,
        {
            proof {
                lemma_box_score_grows(bm, i as int, j + 1);
                assert(bm.take(j + 1).drop_last() =~= bm.take(j as int));
                assert(bm[j as int] == b@[j as int]@);
            }
            assert((i + 1) * (j + 1) <= (i + 1) * b@.len()) by (nonlinear_arith)
                requires
                    j < b@.len(),
            ;
            assert(i + 1 <= u32::MAX && j + 1 <= u32::MAX) by (nonlinear_arith)
                requires
                    (i + 1) * (j + 1) <= u32::MAX,
                    i >= 0,
                    j >= 0,
            ;
            let ab = ((i + 1) as u32) * ((j + 1) as u32);
            let f = b[j].focal_length;
            assert(bm.take(j + 1).last().1 == f);
            assert(bm.take(j + 1).len() == j + 1);
            assert(ab as int * f as int <= u32::MAX) by {
                assert(box_score(bm.take(j + 1), i as int) == box_score(bm.take(j as int), i as int)
                    + (i + 1) * (j + 1) * f);
                lemma_box_score_grows(bm, i as int, j as int);
                assert(ab as int * f as int == (i + 1) * (j + 1) * f) by (nonlinear_arith)
                    requires
                        ab as int == (i + 1) * (j + 1),
                ;
            }
            assert(total + ab * f == total_score(s.take(i as int)) + box_score(bm.take(j + 1), i as int)) by (nonlinear_arith)
                requires
                    ab as int == (i + 1) * (j + 1),
                    box_score(bm.take(j + 1), i as int) == box_score(bm.take(j as int), i as int)
                        + (i + 1) * (j + 1) * f,
                    total == total_score(s.take(i as int)) + box_score(bm.take(j as int), i as int),
            ;
            total = total + ab * f;
            j += 1;
        }
        assert(bm.take(j as int) =~= bm);
        i += 1;
    }
    assert(s.take(i as int) =~= s);
    total
}


/// Whether `score_state` can sum the boxes in `u32`: every slot product
/// `(i + 1) * (j + 1)` and the total stay within it.
pub fn score_fits(state: &Vec<Vec<Lens>>) -> (r: bool)
    ensures
        r == ((forall|i: int| 0 <= i < state@.len() ==> (i + 1) * (#[trigger] state@[i])@.len() <= u32::MAX)
            && total_score(state_models(state@)) <= u32::MAX),
{
    let ghost s = state_models(state@);
    let mut total: u64 = 0;
    let mut i: usize = 0;
    while i < state.len()
        invariant
            s == state_models(state@),
            i <= state@.len(),
            total == total_score(s.take(i as int)),
            total <= u32::MAX,
            forall|a: int| 0 <= a < i ==> (a + 1) * (#[trigger] state@[a])@.len() <= u32::MAX,
        decreases state@.len() - i,
    {
        let b = &state[i];
        let ghost bm = s[i as int];
        assert(bm == box_models(b@));
        let n = b.len();
        if n > 0 && i >= (u32::MAX as usize) / n {
            assert((i + 1) * n > u32::MAX) by (nonlinear_arith)
                requires
                    n > 0,
                    i >= (u32::MAX as int) / (n as int),
            ;
            return false;
        }
        assert((i + 1) * n <= u32::MAX) by (nonlinear_arith)
            requires
                n == 0 || i < (u32::MAX as int) / (n as int),
        ;
        proof {
            assert(s.take(i + 1).drop_last() =~= s.take(i as int));
        }
        let mut j: usize = 0;
        let mut sum: u64 = total;
        while j < n
            invariant
                s == state_models(state@),
                i < state@.len(),
                b == state@[i as int],
                bm == box_models(b@),
                n == b@.len(),
                (i + 1) * n <= u32::MAX,
                j <= n,
                sum == total_score(s.take(i as int)) + box_score(bm.take(j as int), i as int),
                sum <= u32::MAX,
            decreases n - j,
        {
            assert(bm.take(j + 1).drop_last() =~= bm.take(j as int));
            assert(bm[j as int] == b@[j as int]@);
            assert((i + 1) * (j + 1) <= (i + 1) * n) by (nonlinear_arith)
                requires
                    j < n,
            ;
            assert(i + 1 <= u32::MAX && j + 1 <= u32::MAX) by (nonlinear_arith)
                requires
                    (i + 1) * (j + 1) <= u32::MAX,
                    i >= 0,
                    j >= 0,
            ;
            let ab = ((i + 1) as u64) * ((j + 1) as u64);
            let f = b[j].focal_length as u64;
            assert(bm.take(j + 1).last().1 == f);
            assert(ab * f <= u32::MAX * u32::MAX) by (nonlinear_arith)
                requires
                    ab <= u32::MAX,
                    f <= u32::MAX,
            ;
            assert(box_score(bm.take(j + 1), i as int) == box_score(bm.take(j as int), i as int)
                + ab * f) by (nonlinear_arith)
                requires
                    ab == (i + 1) * (j + 1),
                    box_score(bm.take(j + 1), i as int) == box_score(bm.take(j as int), i as int)
                        + (i + 1) * (j + 1) * f,
            ;
            sum = sum + ab * f;
            if sum > u32::MAX as u64 {
                proof {
                    lemma_box_score_grows(bm, i as int, j + 1);
                    assert(bm.take(bm.len() as int) =~= bm);
                    lemma_total_score_grows(s, i + 1);
                    assert(s.take(i + 1).last() == bm);
                    assert(s.take(i + 1).drop_last() =~= s.take(i as int));
                    assert(total_score(s.take(i + 1)) == total_score(s.take(i as int)) + box_score(bm, i as int));
                }
                return false;
            }
            j += 1;
        }
        assert(bm.take(j as int) =~= bm);
        total = sum;
        i += 1;
    }
    assert(s.take(i as int) =~= s);
    true
}

} // verus!
