use track_cli::import::parse_import_line;
use track_cli::store::Store;
use track_cli::TrackError;

fn lines(texts: &[&str]) -> Vec<String> {
    texts.iter().map(|t| t.to_string()).collect()
}

#[test]
fn import_one_line_makes_one_closed_shift_and_two_logs() {
    let mut st = Store::new();
    let n = st
        .import(&lines(&["03/01/2024 | 0900 - 1700 | 8:00 | standup, coding"]))
        .unwrap();
    assert_eq!(n, 1);

    let list = st.get_completed_shift_list(10);
    assert_eq!(list.len(), 1);
    let sh = &list[0];
    // 09:00 at -06:00 is 15:00 UTC on 2024-03-01
    assert_eq!(sh.time_in, 1_709_305_200);
    assert_eq!(sh.time_out, Some(1_709_334_000));
    assert_eq!(sh.time_diff, Some(28_800));

    let logs = st.get_shift_logs(sh.id);
    assert_eq!(logs.len(), 2);
    assert_eq!(logs[0].task, "standup");
    assert_eq!(logs[0].time, 0);
    assert_eq!(logs[1].task, "coding");
    assert_eq!(logs[1].time, 0);
}

#[test]
fn import_bad_date_aborts_whole_file() {
    let mut st = Store::new();
    let r = st.import(&lines(&[
        "03/01/2024 | 0900 - 1700 | 8:00 | standup, coding",
        "not-a-date | 0900 - 1700 | 8:00 | coding",
    ]));
    assert_eq!(r, Err(TrackError::Parse));
    // nothing committed, not even the prior valid line
    assert_eq!(st.get_completed_shift_list(10).len(), 0);
    assert!(!st.is_shift_active());
}

#[test]
fn import_missing_field_aborts_whole_file() {
    let mut st = Store::new();
    let r = st.import(&lines(&["03/01/2024 | 0900 - 1700 | standup"]));
    assert_eq!(r, Err(TrackError::Parse));
    assert_eq!(st.get_completed_shift_list(10).len(), 0);
}

#[test]
fn import_skips_blank_date_lines() {
    let mut st = Store::new();
    let n = st
        .import(&lines(&[
            "",
            "03/01/2024 | 0900 - 1700 | 8:00 | standup",
            "",
            "03/02/2024 | 1000 - 1800 | 8:00 | review",
        ]))
        .unwrap();
    assert_eq!(n, 2);
    let list = st.get_completed_shift_list(10);
    assert_eq!(list.len(), 2);
    // most recent first
    assert_eq!(list[0].time_in, 1_709_305_200 + 86_400 + 3_600);
    assert_eq!(list[1].time_in, 1_709_305_200);
}

#[test]
fn import_coexists_with_active_shift() {
    let mut st = Store::new();
    st.start_shift(2_000_000_000).unwrap();
    let n = st
        .import(&lines(&["03/01/2024 | 0900 - 1700 | 8:00 | standup"]))
        .unwrap();
    assert_eq!(n, 1);
    // the active shift is untouched
    assert!(st.is_shift_active());
    assert_eq!(st.get_active_shift().unwrap().time_in, 2_000_000_000);
    assert_eq!(st.get_completed_shift_list(10).len(), 1);
}

#[test]
fn import_empty_file_is_empty_success() {
    let mut st = Store::new();
    assert_eq!(st.import(&Vec::new()), Ok(0));
    assert_eq!(st.import(&lines(&["", ""])), Ok(0));
}

#[test]
fn parse_line_splits_fields_and_tasks() {
    let rec = parse_import_line("03/01/2024 | 0900 - 1700 | 8:00 | a, b, c")
        .unwrap()
        .unwrap();
    assert_eq!(rec.time_in, 1_709_305_200);
    assert_eq!(rec.time_out, 1_709_334_000);
    assert_eq!(rec.tasks, vec!["a", "b", "c"]);
}

#[test]
fn parse_line_blank_date_is_skip() {
    assert!(parse_import_line("").unwrap().is_none());
    assert!(parse_import_line(" | 0900 - 1700 | 8:00 | a").unwrap().is_none());
}

#[test]
fn parse_line_reports_parse_errors() {
    assert_eq!(parse_import_line("junk"), Err(TrackError::Parse));
    assert_eq!(
        parse_import_line("03/01/2024 | 0900 | 8:00 | a"),
        Err(TrackError::Parse)
    );
    assert_eq!(
        parse_import_line("13/45/2024 | 0900 - 1700 | 8:00 | a"),
        Err(TrackError::Parse)
    );
}
