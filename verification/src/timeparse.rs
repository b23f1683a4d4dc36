//! Parsing human-supplied timestamps and rendering absolute times.  The
//! calendar arithmetic itself is chrono's, behind trusted contracts; the
//! decisions around it are verified.

use vstd::prelude::*;
use vstd::string::*;
use std::fmt::Write;
use crate::{ts_ok, TrackError, TS_BOUND};

verus! {

/// What chrono's `DateTime::parse_from_str` followed by `timestamp()` yields
/// for a format string and an input string: the parsed instant in seconds
/// since the epoch, or nothing where chrono rejects the input.  Both calls
/// are pure, so the result depends on the two strings alone.
pub uninterp spec fn parsed_epoch(fmt: Seq<char>, s: Seq<char>) -> Option<i64>;

/// Relies on `chrono::DateTime::<FixedOffset>::parse_from_str`, a pure
/// parser of its two string arguments, and `chrono::DateTime::timestamp`, a
/// pure projection of the parsed value to seconds since the epoch.
#[verifier::external_body]
fn parse_epoch(s: &str, fmt: &str) -> (r: Option<i64>)
    ensures
        r == parsed_epoch(fmt@, s@),
{
    match chrono::DateTime::parse_from_str(s, fmt) {
        Ok(dt) => Some(dt.timestamp()),
        Err(_) => None,
    }
}

/// The first whole second chrono can place on its calendar:
/// -262143-01-01T00:00:00Z, the lower edge of its year range.
pub const TS_RENDER_MIN: i64 = -8_334_601_228_800;

/// The last whole second chrono can place on its calendar:
/// +262142-12-31T23:59:59Z, the upper edge of its year range.
pub const TS_RENDER_MAX: i64 = 8_210_266_876_799;

/// The timestamps that can be rendered as absolute times: exactly those
/// `chrono::DateTime::from_timestamp` accepts.
pub open spec fn ts_renderable(t: int) -> bool {
    TS_RENDER_MIN <= t <= TS_RENDER_MAX
}

/// Relies on `chrono::DateTime::from_timestamp`, which accepts exactly the
/// timestamps of `ts_renderable` (its date-range check), on
/// `chrono::Local::now` for the machine's current UTC offset, and on
/// chrono's formatter with this fixed format, which names only fields a
/// `DateTime` always carries, renders without panicking (the conversion to
/// local time is the overflowing one), and emits at least the clock digits.
/// The text depends on the machine's time zone, so nothing more is claimed
/// of it.
#[verifier::external_body]
fn format_local_long(t: i64) -> (r: Option<String>)
    ensures
        r is Some <==> ts_renderable(t as int),
        r matches Some(s) ==> s@.len() > 0,
{
    let dt = chrono::DateTime::from_timestamp(t, 0)?;
    let tz = *chrono::Local::now().offset();
    let mut out = String::new();
    match write!(out, "{}", dt.with_timezone(&tz).format("%I:%M%P on %A, %b %d %Y")) {
        Ok(()) => Some(out),
        Err(_) => None,
    }
}

/// Relies on the same chrono calls as `format_local_long`, with the short
/// fixed format; the same reasoning gives the same Some/None boundary and
/// non-empty text.
#[verifier::external_body]
fn format_local_short(t: i64) -> (r: Option<String>)
    ensures
        r is Some <==> ts_renderable(t as int),
        r matches Some(s) ==> s@.len() > 0,
{
    let dt = chrono::DateTime::from_timestamp(t, 0)?;
    let tz = *chrono::Local::now().offset();
    let mut out = String::new();
    match write!(out, "{}", dt.with_timezone(&tz).format("%I:%M%P")) {
        Ok(()) => Some(out),
        Err(_) => None,
    }
}

/// The override-time format: `hour:minute month/day/year` with a trailing
/// UTC offset.
pub open spec fn fmt_override() -> Seq<char> {
    "%H:%M %m/%d/%Y %z"@
}

/// An override-time string as it is handed to the parser: the user's text
/// with the fixed -06:00 offset appended.
pub open spec fn override_input(t: Seq<char>) -> Seq<char> {
    t + " -0600"@
}

/// The import format: `HHMM month/day/year` with a trailing UTC offset.
pub open spec fn fmt_import() -> Seq<char> {
    "%H%M %m/%d/%Y %z"@
}

/// An imported time-of-day and date as they are handed to the parser,
/// joined and given the fixed -06:00 offset.
pub open spec fn import_input(hm: Seq<char>, date: Seq<char>) -> Seq<char> {
    hm + " "@ + date + " -0600"@
}

/// The clock-in or clock-out moment for a command: the current time where no
/// override was given, otherwise the parsed override at the fixed -06:00
/// offset.  `Parse` where the override is malformed or out of the store's
/// range.
pub fn get_time_from_flag(t: Option<&str>, now: i64) -> (r: Result<i64, TrackError>)
    requires
        ts_ok(now as int),
    ensures
        match t {
            None => r == Ok::<i64, TrackError>(now),
            Some(s) => match parsed_epoch(fmt_override(), override_input(s@)) {
                Some(v) => if ts_ok(v as int) {
                    r == Ok::<i64, TrackError>(v)
                } else {
                    r == Err::<i64, TrackError>(TrackError::Parse)
                },
                None => r == Err::<i64, TrackError>(TrackError::Parse),
            },
        },
        r matches Ok(v) ==> ts_ok(v as int),
{
    match t {
        None => Ok(now),
        Some(s) => {
            let mut inp = String::from_str(s);
            inp.append(" -0600");
            proof {
                assert(inp@ == override_input(s@));
            }
            match parse_epoch(inp.as_str(), "%H:%M %m/%d/%Y %z") {
                Some(v) => {
                    if -TS_BOUND <= v && v <= TS_BOUND {
                        Ok(v)
                    } else {
                        Err(TrackError::Parse)
                    }
                },
                None => Err(TrackError::Parse),
            }
        },
    }
}

/// The epoch seconds of one imported `HHMM` time on a given `MM/DD/YYYY`
/// date, at the fixed -06:00 offset; nothing where chrono rejects the pair.
pub fn parse_import_timestamp(hm: &str, date: &str) -> (r: Option<i64>)
    ensures
        r == parsed_epoch(fmt_import(), import_input(hm@, date@)),
{
    let mut inp = String::from_str(hm);
    inp.append(" ");
    inp.append(date);
    inp.append(" -0600");
    proof {
        assert(inp@ == import_input(hm@, date@));
    }
    parse_epoch(inp.as_str(), "%H%M %m/%d/%Y %z")
}

/// A timestamp rendered in the machine's local time, long form
/// (`hh:mmam/pm on Weekday, Mon DD YYYY`): text for exactly the timestamps
/// chrono's calendar holds, nothing outside it.
pub fn format_timestamp(t: i64) -> (r: Option<String>)
    ensures
        r is Some <==> ts_renderable(t as int),
        r matches Some(s) ==> s@.len() > 0,
{
    format_local_long(t)
}

/// A timestamp rendered in the machine's local time, short form
/// (`hh:mmam/pm`): text for exactly the timestamps chrono's calendar holds,
/// nothing outside it.
pub fn format_timestamp_short(t: i64) -> (r: Option<String>)
    ensures
        r is Some <==> ts_renderable(t as int),
        r matches Some(s) ==> s@.len() > 0,
{
    format_local_short(t)
}

} // verus!
