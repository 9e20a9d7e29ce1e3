//! Local timestamps and their `YYYY/MM/DD HH:MM:SS` text, through chrono.
use crate::text::{free_of, is_digit, lemma_concat_free_of, lemma_padded_free_of, padded};
use chrono::{Datelike, Timelike};
use vstd::prelude::*;

verus! {

/// The text layout of a timestamp in a record.
pub const WALL_FORMAT: &'static str = "%Y/%m/%d %H:%M:%S";

/// Earliest and latest years that chrono's dates can hold.
pub const MIN_YEAR: i32 = -262143;

pub const MAX_YEAR: i32 = 262142;

/// A local wall-clock reading, to the second.
#[derive(Clone, Copy, Debug, PartialEq, Eq, Structural)]
pub struct WallTime {
    pub year: i32,
    pub month: u32,
    pub day: u32,
    pub hour: u32,
    pub minute: u32,
    pub second: u32,
}

/// A local timestamp: the wall-clock reading and the UTC offset in force, in
/// seconds east of UTC.
#[derive(Clone, Copy, Debug, PartialEq, Eq, Structural)]
pub struct Stamp {
    pub local: WallTime,
    pub offset: i32,
}

pub open spec fn is_leap_year(y: int) -> bool {
    (y % 4 == 0 && y % 100 != 0) || y % 400 == 0
}

pub open spec fn days_in_month(y: int, m: int) -> int {
    if m == 2 {
        if is_leap_year(y) {
            29
        } else {
            28
        }
    } else if m == 4 || m == 6 || m == 9 || m == 11 {
        30
    } else {
        31
    }
}

impl WallTime {
    /// A date of the proleptic Gregorian calendar within chrono's years, and a
    /// time of day.
    pub open spec fn valid(self) -> bool {
        &&& MIN_YEAR <= self.year <= MAX_YEAR
        &&& 1 <= self.month <= 12
        &&& 1 <= self.day <= days_in_month(self.year as int, self.month as int)
        &&& self.hour < 24
        &&& self.minute < 60
        &&& self.second < 60
    }

    /// The year is written with four digits and no sign.
    pub open spec fn four_digit_year(self) -> bool {
        0 <= self.year <= 9999
    }
}

impl Stamp {
    pub open spec fn valid(self) -> bool {
        self.local.valid() && -86400 < self.offset < 86400
    }
}

/// `%Y`: four digits, zero-padded, for years 0 to 9999; otherwise a sign and at
/// least four digits.
pub open spec fn year_text(y: int) -> Seq<char> {
    if 0 <= y <= 9999 {
        padded(y as nat, 4)
    } else if y < 0 {
        seq!['-'] + padded((-y) as nat, 4)
    } else {
        seq!['+'] + padded(y as nat, 4)
    }
}

/// The text of a wall-clock reading in the layout `WALL_FORMAT`.
pub open spec fn wall_text(w: WallTime) -> Seq<char> {
    year_text(w.year as int) + seq!['/'] + padded(w.month as nat, 2) + seq!['/'] + padded(
        w.day as nat,
        2,
    ) + seq![' '] + padded(w.hour as nat, 2) + seq![':'] + padded(w.minute as nat, 2) + seq![':']
        + padded(w.second as nat, 2)
}

/// Relies on chrono's `Local::now`: the current local date, time and UTC
/// offset. chrono keeps a date within its years, reports a leap second as
/// second 59, and keeps an offset within one day.
#[verifier::external_body]
pub(crate) fn clock_now() -> (r: Stamp)
    ensures
        r.valid(),
{
    let now = chrono::Local::now();
    Stamp {
        local: WallTime {
            year: now.year(),
            month: now.month(),
            day: now.day(),
            hour: now.hour(),
            minute: now.minute(),
            second: now.second(),
        },
        offset: now.offset().local_minus_utc(),
    }
}

/// Relies on chrono's `NaiveDateTime::format` with `WALL_FORMAT`: the year as
/// `%Y` writes it, and month, day, hour, minute and second as two digits.
/// `NaiveDate::from_ymd_opt` and `and_hms_opt` accept every valid reading.
#[verifier::external_body]
fn format_wall(w: &WallTime) -> (r: String)
    requires
        w.valid(),
    ensures
        r@ == wall_text(*w),
{
    let date = chrono::NaiveDate::from_ymd_opt(w.year, w.month, w.day).unwrap();
    date.and_hms_opt(w.hour, w.minute, w.second).unwrap().format(WALL_FORMAT).to_string()
}

/// Relies on chrono's `NaiveDateTime::parse_from_str` with `WALL_FORMAT`: what it
/// accepts is a valid date and time, and the text that the format writes for a
/// reading with a four-digit year reads back as that reading.
#[verifier::external_body]
fn parse_wall(text: &str) -> (r: Option<WallTime>)
    ensures
        r matches Some(w) ==> w.valid(),
        forall|w: WallTime|
            w.valid() && w.four_digit_year() && text@ == #[trigger] wall_text(w) ==> r == Some(w),
{
    match chrono::NaiveDateTime::parse_from_str(text, WALL_FORMAT) {
        Ok(dt) => Some(
            WallTime {
                year: dt.year(),
                month: dt.month(),
                day: dt.day(),
                hour: dt.hour(),
                minute: dt.minute(),
                second: dt.second(),
            },
        ),
        Err(_) => None,
    }
}

impl Stamp {
    /// The current local time.
    pub fn now() -> (r: Stamp)
        ensures
            r.valid(),
    {
        clock_now()
    }

    /// The wall-clock reading as `YYYY/MM/DD HH:MM:SS`.
    pub fn show(&self) -> (r: String)
        requires
            self.valid(),
        ensures
            r@ == wall_text(self.local),
    {
        format_wall(&self.local)
    }
}

/// Reads a timestamp written as `YYYY/MM/DD HH:MM:SS` in the local zone, whose
/// UTC offset is `offset`.
///
/// The text holds no offset. It is read as if it were UTC, the offset is taken
/// off to give the instant, and the instant is read back in the zone: with one
/// offset for the whole zone the wall-clock reading is the text's, and the
/// offset is `offset`. A file written under another offset reads with shifted
/// instants.
pub fn to_datetime(date_str: &str, offset: i32) -> (r: Option<Stamp>)
    requires
        -86400 < offset < 86400,
    ensures
        r matches Some(s) ==> s.valid() && s.offset == offset,
        forall|w: WallTime|
            w.valid() && w.four_digit_year() && date_str@ == #[trigger] wall_text(w) ==> r == Some(
                Stamp { local: w, offset },
            ),
{
    match parse_wall(date_str) {
        Some(w) => Some(Stamp { local: w, offset }),
        None => None,
    }
}

/// The text of a reading holds only digits, `/`, ` `, `:` and a sign.
pub proof fn lemma_wall_text_free_of(w: WallTime, c: char)
    requires
        !is_digit(c),
        c != '/' && c != ' ' && c != ':' && c != '-' && c != '+',
    ensures
        free_of(wall_text(w), c),
{
    let y = w.year as int;
    if 0 <= y <= 9999 {
        lemma_padded_free_of(y as nat, 4, c);
    } else if y < 0 {
        lemma_padded_free_of((-y) as nat, 4, c);
        assert(free_of(seq!['-'], c));
        lemma_concat_free_of(seq!['-'], padded((-y) as nat, 4), c);
    } else {
        lemma_padded_free_of(y as nat, 4, c);
        assert(free_of(seq!['+'], c));
        lemma_concat_free_of(seq!['+'], padded(y as nat, 4), c);
    }
    lemma_padded_free_of(w.month as nat, 2, c);
    lemma_padded_free_of(w.day as nat, 2, c);
    lemma_padded_free_of(w.hour as nat, 2, c);
    lemma_padded_free_of(w.minute as nat, 2, c);
    lemma_padded_free_of(w.second as nat, 2, c);
    assert(free_of(seq!['/'], c));
    assert(free_of(seq![' '], c));
    assert(free_of(seq![':'], c));
    let t1 = year_text(y) + seq!['/'];
    lemma_concat_free_of(year_text(y), seq!['/'], c);
    let t2 = t1 + padded(w.month as nat, 2);
    lemma_concat_free_of(t1, padded(w.month as nat, 2), c);
    let t3 = t2 + seq!['/'];
    lemma_concat_free_of(t2, seq!['/'], c);
    let t4 = t3 + padded(w.day as nat, 2);
    lemma_concat_free_of(t3, padded(w.day as nat, 2), c);
    let t5 = t4 + seq![' '];
    lemma_concat_free_of(t4, seq![' '], c);
    let t6 = t5 + padded(w.hour as nat, 2);
    lemma_concat_free_of(t5, padded(w.hour as nat, 2), c);
    let t7 = t6 + seq![':'];
    lemma_concat_free_of(t6, seq![':'], c);
    let t8 = t7 + padded(w.minute as nat, 2);
    lemma_concat_free_of(t7, padded(w.minute as nat, 2), c);
    let t9 = t8 + seq![':'];
    lemma_concat_free_of(t8, seq![':'], c);
    lemma_concat_free_of(t9, padded(w.second as nat, 2), c);
}

} // verus!
