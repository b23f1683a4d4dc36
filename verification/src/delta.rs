//! Signed deltas against a target, and the three-way presentation band that
//! callers render (colour is the caller's business; the band is data here).

use vstd::prelude::*;
use vstd::string::*;
use crate::duration::{format_timediff, spec_format_duration};
use crate::{ts_ok, DAY_SECONDS, HOUR_SECONDS};

verus! {

/// Where a duration stands against a target.
#[derive(Clone, Copy, Debug, PartialEq, Eq, Structural)]
pub enum Band {
    /// Short of the target.
    Under,
    /// At the target, by less than an hour.
    Near,
    /// An hour or more past the target.
    Over,
}

/// The band of a signed delta: under the target when negative, near while
/// less than an hour past it, over from one hour on.  Callers that do not
/// distinguish the near band fold it into `Over`.
pub open spec fn band_of(delta: int, near_enabled: bool) -> Band {
    if delta < 0 {
        Band::Under
    } else if delta < HOUR_SECONDS && near_enabled {
        Band::Near
    } else {
        Band::Over
    }
}

fn band(delta: i64, near_enabled: bool) -> (b: Band)
    ensures
        b == band_of(delta as int, near_enabled),
{
    if delta < 0 {
        Band::Under
    } else if delta < HOUR_SECONDS && near_enabled {
        Band::Near
    } else {
        Band::Over
    }
}

/// `actual - target`, together with its presentation band.
pub fn signed_delta(actual: i64, target: i64) -> (r: (i64, Band))
    requires
        i64::MIN <= actual - target <= i64::MAX,
    ensures
        r.0 == actual - target,
        r.1 == band_of(actual - target, true),
{
    let delta = actual - target;
    (delta, band(delta, true))
}

/// A delta prepared for rendering: the signed value, its band, and the
/// absolute value as `(HH:MM)` text.
pub struct DeltaReport {
    pub delta: i64,
    pub band: Band,
    pub text: String,
}

/// The text a delta renders as: its absolute value in `HH:MM` form, in
/// parentheses.
pub open spec fn spec_delta_text(delta: int) -> Seq<char> {
    seq!['('] + spec_format_duration(
        if delta < 0 {
            -delta
        } else {
            delta
        },
    ) + seq![')']
}

/// A report that presents the delta of `t` against `d`.
pub open spec fn delta_report_ok(r: DeltaReport, t: int, d: int, near_enabled: bool) -> bool {
    &&& r.delta == t - d
    &&& r.band == band_of(t - d, near_enabled)
    &&& r.text@ == spec_delta_text(t - d)
}

/// The delta of `t` against `d`, rendered for printing; `n` says whether the
/// near band is distinguished.
pub fn print_delta(t: i64, d: i64, n: bool) -> (r: DeltaReport)
    requires
        i64::MIN < t - d <= i64::MAX,
    ensures
        delta_report_ok(r, t as int, d as int, n),
{
    let delta = t - d;
    let abs = if delta < 0 {
        -delta
    } else {
        delta
    };
    let mut text = String::from_str("(");
    text.append(format_timediff(abs).as_str());
    text.append(")");
    proof {
        reveal_strlit("(");
        reveal_strlit(")");
        assert(text@ =~= spec_delta_text(t - d));
    }
    DeltaReport { delta, band: band(delta, n), text }
}

/// The delta of a worked duration against the daily target.
pub fn print_target_delta(t: i64) -> (r: DeltaReport)
    requires
        i64::MIN < t - DAY_SECONDS,
    ensures
        delta_report_ok(r, t as int, DAY_SECONDS as int, true),
{
    print_delta(t, DAY_SECONDS, true)
}

/// A delta shown as it stands (against zero), with no near band.
pub fn print_zero_delta(t: i64) -> (r: DeltaReport)
    requires
        i64::MIN < t,
    ensures
        delta_report_ok(r, t as int, 0, false),
{
    print_delta(t, 0, false)
}

/// The delta of the time worked so far against the daily target, for a shift
/// begun at `t` and a clock reading `now`.
pub fn print_active_target_delta(t: i64, now: i64) -> (r: DeltaReport)
    requires
        ts_ok(t as int),
        ts_ok(now as int),
    ensures
        delta_report_ok(r, now - t, DAY_SECONDS as int, true),
{
    print_target_delta(now - t)
}

} // verus!
