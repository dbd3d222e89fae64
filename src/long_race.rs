use vstd::prelude::*;
use vstd::string::*;
use crate::races::{RaceError, RaceInfo, field_of};
use crate::text::{split_char, split_on, trim, trimmed, split_words, words, parse_usize, is_unsigned, decimal, unsigned_digits};

verus! {

/// The words run together, the spaces between them dropped.
pub open spec fn joined(ws: Seq<Seq<char>>) -> Seq<char>
    decreases ws.len(),
{
    if ws.len() == 0 {
        seq![]
    } else {
        joined(ws.drop_last()) + ws.last()
    }
}

/// The one number of a line `Label: d d d`, its digits read with the spaces dropped.
pub open spec fn number_of(line: Seq<char>) -> Result<int, RaceError> {
    match field_of(line) {
        None => Err(RaceError::MissingField),
        Some(f) => {
            let j = joined(words(trimmed(f)));
            if is_unsigned(j, usize::MAX as int) {
                Ok(decimal(unsigned_digits(j)))
            } else {
                Err(RaceError::BadNumber)
            }
        },
    }
}

/// The one number of a line of the sheet.
pub fn parse_number(line: &str) -> (r: Result<usize, RaceError>)
    ensures
        match number_of(line@) {
            Ok(n) => r matches Ok(v) && v == n,
            Err(e) => r == Err::<usize, RaceError>(e),
        },
{
    let parts = split_char(line, ':');
    if parts.len() < 2 {
        return Err(RaceError::MissingField);
    }
    assert(parts@[1]@ == split_on(line@, ':')[1]);
    let ws = split_words(trim(parts[1].as_str()));
    let ghost wm = words(trimmed(split_on(line@, ':')[1]));
    let mut text = String::new();
    let mut i: usize = 0;
    while i < ws.len()
        invariant
            ws@.map_values(|w: String| w@) == wm,
            i <= ws@.len(),
            text@ == joined(wm.take(i as int)),
        decreases ws@.len() - i,
    {
        assert(wm.take(i + 1).drop_last() =~= wm.take(i as int));
        assert(ws@[i as int]@ == wm[i as int]);
        text.append(ws[i].as_str());
        i += 1;
    }
    assert(wm.take(i as int) =~= wm);
    match parse_usize(text.as_str()) {
        Some(v) => Ok(v),
        None => Err(RaceError::BadNumber),
    }
}

/// Reads the sheet as one race: the time on the first line, the record on the
/// second, each with the spaces between its digits dropped.
pub fn parse_input(lines: &Vec<String>) -> (r: Result<RaceInfo, RaceError>)
    ensures
        lines@.len() < 1 ==> r == Err::<RaceInfo, RaceError>(RaceError::MissingLine),
        lines@.len() >= 1 ==> match number_of(lines@[0]@) {
            Err(e) => r == Err::<RaceInfo, RaceError>(e),
            Ok(t) => if lines@.len() < 2 {
                r == Err::<RaceInfo, RaceError>(RaceError::MissingLine)
            } else {
                match number_of(lines@[1]@) {
                    Err(e) => r == Err::<RaceInfo, RaceError>(e),
                    Ok(rec) => r matches Ok(ri) && ri.time == t && ri.record == rec,
                }
            },
        },
{
    if lines.len() < 1 {
        return Err(RaceError::MissingLine);
    }
    let time = parse_number(lines[0].as_str())?;
    if lines.len() < 2 {
        return Err(RaceError::MissingLine);
    }
    let record = parse_number(lines[1].as_str())?;
    Ok(RaceInfo { time, record })
}

} // verus!
