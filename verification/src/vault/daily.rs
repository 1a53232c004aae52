//! Daily notes: the date a caller names, and the text of a new daily note.

use vstd::prelude::*;
use crate::text::{chars_of, push_all, string_of};

verus! {

/// Why a date given for a daily note is refused.
#[derive(Debug, Clone, Copy, PartialEq, Eq, Structural)]
pub enum DateError {
    /// Not of the form `YYYY-MM-DD`.
    Format,
    /// Month not in 1..=12, day not in 1..=31, or year before 1900.
    OutOfRange,
}

pub open spec fn is_digit(c: char) -> bool {
    '0' <= c <= '9'
}

/// The number written by the decimal digits `s`.
pub open spec fn digits_value(s: Seq<char>) -> int
    decreases s.len(),
{
    if s.len() == 0 {
        0
    } else {
        digits_value(s.drop_last()) * 10 + (s.last() as int - '0' as int)
    }
}

/// `d` has the form `YYYY-MM-DD`: ten characters, dashes at the fifth and
/// eighth, decimal digits elsewhere. (This is exactly what passes the two
/// checks of `get_daily_note`: only ASCII digits and dashes, ten bytes, and
/// three dash-separated parts of four, two and two characters.)
pub open spec fn date_shape(d: Seq<char>) -> bool {
    &&& d.len() == 10
    &&& d[4] == '-'
    &&& d[7] == '-'
    &&& forall|i: int| 0 <= i < 10 && i != 4 && i != 7 ==> is_digit(#[trigger] d[i])
}

pub open spec fn date_year(d: Seq<char>) -> int {
    digits_value(d.subrange(0, 4))
}

pub open spec fn date_month(d: Seq<char>) -> int {
    digits_value(d.subrange(5, 7))
}

pub open spec fn date_day(d: Seq<char>) -> int {
    digits_value(d.subrange(8, 10))
}

/// What `get_daily_note` decides of a date it is given.
pub open spec fn date_check(d: Seq<char>) -> Result<(), DateError> {
    if !date_shape(d) {
        Err(DateError::Format)
    } else if 1 <= date_month(d) <= 12 && 1 <= date_day(d) <= 31 && date_year(d) >= 1900 {
        Ok(())
    } else {
        Err(DateError::OutOfRange)
    }
}

/// The value of the digits `s[lo..hi]`.
fn digits_at(s: &[char], lo: usize, hi: usize) -> (r: u32)
    requires
        lo <= hi <= s@.len(),
        hi - lo <= 4,
        forall|i: int| lo <= i < hi ==> is_digit(#[trigger] s@[i]),
    ensures
        r == digits_value(s@.subrange(lo as int, hi as int)),
{
    let mut v: u32 = 0;
    let mut i = lo;
    while i < hi
        invariant
            lo <= i <= hi <= s@.len(),
            hi - lo <= 4,
            forall|k: int| lo <= k < hi ==> is_digit(#[trigger] s@[k]),
            v == digits_value(s@.subrange(lo as int, i as int)),
            i - lo == 0 ==> v == 0,
            i - lo == 1 ==> v < 10,
            i - lo == 2 ==> v < 100,
            i - lo == 3 ==> v < 1000,
            v < 10000,
        decreases hi - i,
    {
        proof {
            assert(s@.subrange(lo as int, i + 1).drop_last() =~= s@.subrange(lo as int, i as int));
            assert(is_digit(s@[i as int]));
        }
        let d = (s[i] as u32) - ('0' as u32);
        v = v * 10 + d;
        i += 1;
    }
    v
}

/// Checks a date given for a daily note (see `date_check`).
pub fn validate_date(date: &str) -> (r: Result<(), DateError>)
    ensures
        r == date_check(date@),
{
    let d = chars_of(date);
    if d.len() != 10 || d[4] != '-' || d[7] != '-' {
        return Err(DateError::Format);
    }
    let mut i: usize = 0;
    while i < 10
        invariant
            d@.len() == 10,
            d@ == date@,
            i <= 10,
            forall|k: int| 0 <= k < i && k != 4 && k != 7 ==> is_digit(#[trigger] d@[k]),
        decreases 10 - i,
    {
        if i != 4 && i != 7 && !('0' <= d[i] && d[i] <= '9') {
            assert(!is_digit(d@[i as int]));
            assert(!date_shape(d@));
            return Err(DateError::Format);
        }
        i += 1;
    }
    let year = digits_at(&d, 0, 4);
    let month = digits_at(&d, 5, 7);
    let day = digits_at(&d, 8, 10);
    if 1 <= month && month <= 12 && 1 <= day && day <= 31 && year >= 1900 {
        Ok(())
    } else {
        Err(DateError::OutOfRange)
    }
}

/// The text of a new daily note: a level-one heading with the date, then a
/// blank line.
pub open spec fn daily_note_spec(date: Seq<char>) -> Seq<char> {
    seq!['#', ' '] + date + seq!['\n', '\n']
}

/// The text of a new daily note for `date` (see `daily_note_spec`).
pub fn daily_note_text(date: &str) -> (r: String)
    ensures
        r@ == daily_note_spec(date@),
{
    let mut out: Vec<char> = Vec::new();
    push_all(&mut out, &['#', ' ']);
    push_all(&mut out, &chars_of(date));
    push_all(&mut out, &['\n', '\n']);
    assert(out@ =~= daily_note_spec(date@));
    string_of(&out)
}

} // verus!
