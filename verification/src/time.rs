//! Instants in UTC.

use std::fmt::Write;
use vstd::prelude::*;

use crate::model::opt_text;
use crate::text::{dec, digit};

verus! {

/// An instant: whole seconds since 1970-01-01T00:00:00Z and the nanoseconds
/// after them.
#[derive(Clone, Copy, Debug, PartialEq, Eq, Structural)]
pub struct Timestamp {
    pub seconds: i64,
    pub nanos: u32,
}

/// Whether a second lies in the years -262143 to 262142, the range of a
/// calendar date.
pub open spec fn in_calendar(seconds: int) -> bool {
    -8334601228800 <= seconds <= 8210266876799
}

/// The instant `n` units after 1970-01-01T00:00:00Z, where a second has
/// `per_second` units, if it lies in the range of a calendar date.
pub open spec fn instant_of(n: int, per_second: int) -> Option<Timestamp> {
    if in_calendar(n / per_second) {
        Some(
            Timestamp {
                seconds: (n / per_second) as i64,
                nanos: ((n % per_second) * (1_000_000_000int / per_second)) as u32,
            },
        )
    } else {
        None
    }
}

/// `chrono::DateTime::from_timestamp_micros`: the instant that many
/// microseconds after the epoch, or nothing outside the range of dates.
#[verifier::external_body]
pub(crate) fn from_micros(micros: i64) -> (r: Option<Timestamp>)
    ensures
        r == instant_of(micros as int, 1_000_000),
{
    chrono::DateTime::from_timestamp_micros(micros).map(
        |t| Timestamp { seconds: t.timestamp(), nanos: t.timestamp_subsec_nanos() },
    )
}

/// `chrono::DateTime::from_timestamp_millis`: the instant that many
/// milliseconds after the epoch, or nothing outside the range of dates.
#[verifier::external_body]
pub(crate) fn from_millis(millis: i64) -> (r: Option<Timestamp>)
    ensures
        r == instant_of(millis as int, 1_000),
{
    chrono::DateTime::from_timestamp_millis(millis).map(
        |t| Timestamp { seconds: t.timestamp(), nanos: t.timestamp_subsec_nanos() },
    )
}

/// `chrono::DateTime::from_timestamp`: the instant that many seconds and then
/// nanoseconds after the epoch, or nothing outside the range of dates. It is
/// stated for less than a second of nanoseconds.
#[verifier::external_body]
pub(crate) fn from_seconds(seconds: i64, nanos: u32) -> (r: Option<Timestamp>)
    requires
        nanos < 1_000_000_000,
    ensures
        r == (if in_calendar(seconds as int) {
            Some(Timestamp { seconds, nanos })
        } else {
            None
        }),
{
    chrono::DateTime::from_timestamp(seconds, nanos).map(
        |t| Timestamp { seconds: t.timestamp(), nanos: t.timestamp_subsec_nanos() },
    )
}

/// The instant that many nanoseconds after the epoch.
pub fn from_nanos(n: i64) -> (r: Option<Timestamp>)
    ensures
        r == instant_of(n as int, 1_000_000_000),
        r is Some,
{
    match (n.checked_div_euclid(1_000_000_000), n.checked_rem_euclid(1_000_000_000)) {
        (Some(seconds), Some(nanos)) => from_seconds(seconds, nanos as u32),
        _ => None,
    }
}

/// `chrono::DateTime::from_timestamp_nanos`: the instant that many nanoseconds
/// after the epoch. Every such instant lies in the range of dates.
#[verifier::external_body]
pub(crate) fn at_nanos(n: i64) -> (r: Timestamp)
    ensures
        instant_of(n as int, 1_000_000_000) == Some(r),
{
    let t = chrono::DateTime::from_timestamp_nanos(n);
    Timestamp { seconds: t.timestamp(), nanos: t.timestamp_subsec_nanos() }
}

/// Whether an instant lies in the years 0 to 9999.
pub open spec fn has_four_digit_year(t: Timestamp) -> bool {
    -62167219200 <= t.seconds <= 253402300799 && t.nanos < 1_000_000_000
}

/// The text of an instant in the form of RFC 3339, with as many digits of the
/// second as it needs and a `Z`, if it lies in the range of dates
/// (`chrono::DateTime::to_rfc3339_opts`).
pub uninterp spec fn iso_text(seconds: i64, nanos: u32) -> Option<Seq<char>>;

/// The instant of a text in a relaxed form of RFC 3339, or why it has none
/// (`str::parse` into a `chrono::DateTime`).
pub uninterp spec fn iso_instant(text: Seq<char>) -> Result<Timestamp, Seq<char>>;

/// `chrono::DateTime::to_rfc3339_opts` on the instant of
/// `chrono::DateTime::from_timestamp` is a function of the two numbers; what the
/// text looks like is left to the name.
#[verifier::external_body]
pub(crate) fn print_iso(seconds: i64, nanos: u32) -> (r: Option<String>)
    ensures
        opt_text(r) == iso_text(seconds, nanos),
{
    chrono::DateTime::from_timestamp(seconds, nanos).map(
        |t| t.to_rfc3339_opts(chrono::SecondsFormat::AutoSi, true),
    )
}

/// `str::parse` into a `chrono::DateTime` in UTC is a function of the text; which
/// texts it takes is left to the name, but that it gives back an instant of the
/// years 0 to 9999 that was printed.
#[verifier::external_body]
pub(crate) fn read_iso(text: &str) -> (r: Result<Timestamp, String>)
    ensures
        match r {
            Ok(t) => iso_instant(text@) == Ok::<Timestamp, Seq<char>>(t),
            Err(e) => iso_instant(text@) == Err::<Timestamp, Seq<char>>(e@),
        },
        forall|t: Timestamp|
            #[trigger] iso_text(t.seconds, t.nanos) == Some(text@) && has_four_digit_year(t)
                ==> match r {
                Ok(got) => got == t,
                Err(_) => false,
            },
{
    text.parse::<chrono::DateTime<chrono::Utc>>()
        .map(|t| Timestamp { seconds: t.timestamp(), nanos: t.timestamp_subsec_nanos() })
        .map_err(|e| e.to_string())
}

/// Whether a year of the Gregorian calendar has a 29th of February.
pub open spec fn is_leap(year: int) -> bool {
    year % 4 == 0 && (year % 100 != 0 || year % 400 == 0)
}

/// How many days of a year come before a month of it.
pub open spec fn days_before(year: int, month: int) -> int {
    seq![0int, 31, 59, 90, 120, 151, 181, 212, 243, 273, 304, 334, 365][month - 1] + if is_leap(
        year,
    ) && month > 2 {
        1int
    } else {
        0
    }
}

/// How many days a day of the Gregorian calendar lies behind 1970-01-01.
pub open spec fn day_number(year: int, month: int, day: int) -> int {
    365 * (year - 1) + (year - 1) / 4 - (year - 1) / 100 + (year - 1) / 400 + days_before(
        year,
        month,
    ) + day - 1 - 719162
}

/// Whether a year has a month with such a day.
pub open spec fn is_day(year: int, month: int, day: int) -> bool {
    1 <= month <= 12 && 1 <= day <= days_before(year, month + 1) - days_before(year, month)
}

/// The digits of a number, with zeros before them up to a width.
pub open spec fn zero_padded(n: nat, width: nat) -> Seq<char>
    decreases width,
{
    if width <= 1 {
        dec(n)
    } else {
        zero_padded(n / 10, (width - 1) as nat).push(digit(n % 10))
    }
}

/// The digits of a year, four at least, with a sign before them where the year has not
/// four.
pub open spec fn year_text(year: int) -> Seq<char> {
    if 0 <= year <= 9999 {
        zero_padded(year as nat, 4)
    } else if year < 0 {
        seq!['-'] + zero_padded((-year) as nat, 4)
    } else {
        seq!['+'] + zero_padded(year as nat, 4)
    }
}

/// The name of the session that begins at a second of a day.
pub open spec fn session_name(year: int, month: int, day: int, second: int) -> Seq<char> {
    "session-"@ + year_text(year) + zero_padded(month as nat, 2) + zero_padded(day as nat, 2)
        + seq!['-'] + zero_padded((second / 3600) as nat, 2) + zero_padded(
        (second / 60 % 60) as nat,
        2,
    ) + zero_padded((second % 60) as nat, 2)
}

/// Whether a text is the name of the session that begins at a second since the epoch.
pub open spec fn names_session_at(text: Seq<char>, seconds: int) -> bool {
    exists|year: int, month: int, day: int|
        is_day(year, month, day) && #[trigger] day_number(year, month, day) == seconds / 86400
            && text == session_name(year, month, day, seconds % 86400)
}

/// `chrono::DateTime::format` on the instant of `chrono::DateTime::from_timestamp`,
/// with the format of the names of sessions: the fixed characters of the format, and
/// in place of each `%` and a letter the digits of the year, month, day, hour, minute
/// and second.
#[verifier::external_body]
pub(crate) fn format_utc(seconds: i64, format: &str) -> (r: Option<String>)
    requires
        format@ == "session-%Y%m%d-%H%M%S"@,
    ensures
        match r {
            Some(s) => in_calendar(seconds as int) && names_session_at(s@, seconds as int),
            None => !in_calendar(seconds as int),
        },
{
    let t = chrono::DateTime::from_timestamp(seconds, 0)?;
    let mut s = String::new();
    write!(s, "{}", t.format(format)).ok().map(|()| s)
}

} // verus!
