use track_cli::delta::{print_delta, print_target_delta, print_zero_delta, signed_delta, Band};
use track_cli::duration::{format_duration_inverse, format_timediff};
use track_cli::timeparse::{
    format_timestamp, format_timestamp_short, get_time_from_flag, TS_RENDER_MAX, TS_RENDER_MIN,
};
use track_cli::TrackError;

#[test]
fn format_timediff_pads_hours_and_minutes() {
    assert_eq!(format_timediff(0), "00:00");
    assert_eq!(format_timediff(60), "00:01");
    assert_eq!(format_timediff(3_600), "01:00");
    assert_eq!(format_timediff(32_400), "09:00");
    assert_eq!(format_timediff(28_800), "08:00");
    assert_eq!(format_timediff(9 * 3600 + 5 * 60), "09:05");
    // sub-minute part is dropped
    assert_eq!(format_timediff(59), "00:00");
    assert_eq!(format_timediff(61), "00:01");
    // more than two hour digits are kept
    assert_eq!(format_timediff(100 * 3600 + 5 * 60), "100:05");
}

#[test]
fn duration_round_trip_at_minute_granularity() {
    for &secs in &[0i64, 60, 3_600, 32_400, 32_700, 359_940, 100 * 3600 + 300] {
        let text = format_timediff(secs);
        assert_eq!(format_duration_inverse(&text), Some(secs));
        // and formatting the parsed value gives the text back
        assert_eq!(format_timediff(format_duration_inverse(&text).unwrap()), text);
    }
    // sub-minute truncation is consistent: both sides agree on the minute
    let text = format_timediff(32_459);
    assert_eq!(text, "09:00");
    assert_eq!(format_duration_inverse(&text), Some(32_400));
}

#[test]
fn duration_inverse_rejects_malformed_text() {
    assert_eq!(format_duration_inverse(""), None);
    assert_eq!(format_duration_inverse("0900"), None);
    assert_eq!(format_duration_inverse("09:0"), None);
    assert_eq!(format_duration_inverse("09:000"), None);
    assert_eq!(format_duration_inverse(":30"), None);
    assert_eq!(format_duration_inverse("09:60"), None);
    assert_eq!(format_duration_inverse("ab:cd"), None);
}

#[test]
fn signed_delta_bands() {
    // the worked examples against the 9h target
    let (d, band) = signed_delta(28_800, 32_400);
    assert_eq!(d, -3_600);
    assert_eq!(band, Band::Under);

    let (d, band) = signed_delta(32_700, 32_400);
    assert_eq!(d, 300);
    assert_eq!(band, Band::Near);

    let (d, band) = signed_delta(36_000, 32_400);
    assert_eq!(d, 3_600);
    assert_eq!(band, Band::Over);

    // band edges
    assert_eq!(signed_delta(32_400, 32_400).1, Band::Near);
    assert_eq!(signed_delta(32_399, 32_400).1, Band::Under);
    assert_eq!(signed_delta(35_999, 32_400).1, Band::Near);
}

#[test]
fn delta_reports_render_absolute_value() {
    let rep = print_target_delta(28_800);
    assert_eq!(rep.delta, -3_600);
    assert_eq!(rep.band, Band::Under);
    assert_eq!(rep.text, "(01:00)");

    let rep = print_target_delta(36_000);
    assert_eq!(rep.delta, 3_600);
    assert_eq!(rep.band, Band::Over);
    assert_eq!(rep.text, "(01:00)");

    // without the near band, a small surplus is already "over"
    let rep = print_zero_delta(300);
    assert_eq!(rep.band, Band::Over);
    assert_eq!(rep.text, "(00:05)");

    let rep = print_delta(32_700, 32_400, true);
    assert_eq!(rep.band, Band::Near);
    assert_eq!(rep.text, "(00:05)");
}

#[test]
fn time_flag_absent_returns_now() {
    assert_eq!(get_time_from_flag(None, 123_456), Ok(123_456));
}

#[test]
fn time_flag_parses_fixed_offset_override() {
    // 14:30 on 2024-03-01 at -06:00 is 20:30 UTC
    let t = get_time_from_flag(Some("14:30 03/01/2024"), 0).unwrap();
    assert_eq!(t, 1_709_325_000);
}

#[test]
fn time_flag_rejects_malformed_override() {
    assert_eq!(
        get_time_from_flag(Some("half past two"), 0),
        Err(TrackError::Parse)
    );
    assert_eq!(
        get_time_from_flag(Some("14:30"), 0),
        Err(TrackError::Parse)
    );
    assert_eq!(
        get_time_from_flag(Some("25:99 03/01/2024"), 0),
        Err(TrackError::Parse)
    );
}

#[test]
fn timestamps_render_in_local_time() {
    // the text depends on the machine's time zone, but rendering must
    // succeed for an ordinary timestamp and fail outside chrono's range
    let long = format_timestamp(1_709_325_000).unwrap();
    assert!(!long.is_empty());
    let short = format_timestamp_short(1_709_325_000).unwrap();
    assert!(!short.is_empty());
    assert!(long.len() > short.len());
    assert_eq!(format_timestamp(i64::MAX), None);
    assert_eq!(format_timestamp_short(i64::MAX), None);
}

#[test]
fn timestamp_rendering_boundary_is_exact() {
    // the contract's Some/None boundary, checked against chrono itself
    assert!(format_timestamp(TS_RENDER_MAX).is_some());
    assert_eq!(format_timestamp(TS_RENDER_MAX + 1), None);
    assert!(format_timestamp(TS_RENDER_MIN).is_some());
    assert_eq!(format_timestamp(TS_RENDER_MIN - 1), None);
    assert!(format_timestamp_short(TS_RENDER_MAX).is_some());
    assert_eq!(format_timestamp_short(TS_RENDER_MAX + 1), None);
    assert!(format_timestamp_short(TS_RENDER_MIN).is_some());
    assert_eq!(format_timestamp_short(TS_RENDER_MIN - 1), None);
    assert_eq!(format_timestamp(0).is_some(), true);
}
