use track_cli::store::{Shift, Store};
use track_cli::TrackError;

#[test]
fn start_then_stop_records_exact_diff() {
    let mut st = Store::new();
    let sh = st.start_shift(1_000).unwrap();
    assert_eq!(sh.time_in, 1_000);
    assert_eq!(sh.time_out, None);
    assert_eq!(sh.time_diff, None);
    assert!(st.is_shift_active());

    let closed = st.stop_shift(33_400).unwrap();
    assert_eq!(closed.id, sh.id);
    assert_eq!(closed.time_out, Some(33_400));
    assert_eq!(closed.time_diff, Some(32_400));
    assert!(!st.is_shift_active());
}

#[test]
fn start_while_active_is_conflict() {
    let mut st = Store::new();
    st.start_shift(10).unwrap();
    assert_eq!(st.start_shift(20), Err(TrackError::Conflict));
    // the failed start changed nothing
    assert!(st.is_shift_active());
    assert_eq!(st.get_active_shift().unwrap().time_in, 10);
}

#[test]
fn stop_while_inactive_is_not_found() {
    let mut st = Store::new();
    assert_eq!(st.stop_shift(10), Err(TrackError::NotFound));
    st.start_shift(10).unwrap();
    st.stop_shift(20).unwrap();
    assert_eq!(st.stop_shift(30), Err(TrackError::NotFound));
}

#[test]
fn active_flag_follows_start_and_stop() {
    let mut st = Store::new();
    assert!(!st.is_shift_active());
    for round in 0..3i64 {
        st.start_shift(100 * round).unwrap();
        assert!(st.is_shift_active());
        assert!(st.is_shift_active()); // stays active until the stop
        st.stop_shift(100 * round + 50).unwrap();
        assert!(!st.is_shift_active());
        assert!(!st.is_shift_active()); // stays inactive until the next start
    }
}

#[test]
fn log_without_active_shift_is_not_found() {
    let mut st = Store::new();
    assert_eq!(
        st.log_task(String::from("standup"), 0),
        Err(TrackError::NotFound)
    );
}

#[test]
fn logs_attach_to_active_shift_in_order() {
    let mut st = Store::new();
    let sh = st.start_shift(0).unwrap();
    st.log_task(String::from("standup"), 15).unwrap();
    st.log_task(String::from("coding"), 0).unwrap();
    let logs = st.get_shift_logs(sh.id);
    assert_eq!(logs.len(), 2);
    assert_eq!(logs[0].task, "standup");
    assert_eq!(logs[0].time, 15);
    assert_eq!(logs[0].shift_id, sh.id);
    assert_eq!(logs[1].task, "coding");
    assert_eq!(logs[1].time, 0);
    // logs of another shift are not returned
    assert_eq!(st.get_shift_logs(sh.id + 1).len(), 0);
}

#[test]
fn add_log_is_unconditional() {
    let mut st = Store::new();
    let lg = st.add_log(7, String::from("note"), 3);
    assert_eq!(lg.shift_id, 7);
    assert_eq!(lg.task, "note");
    assert_eq!(lg.time, 3);
    assert_eq!(st.get_shift_logs(7).len(), 1);
}

#[test]
fn completed_list_is_closed_recent_first_and_truncated() {
    let mut st = Store::new();
    // three closed shifts with out-of-order start times, plus one active
    st.start_shift(500).unwrap();
    st.stop_shift(600).unwrap();
    st.start_shift(100).unwrap();
    st.stop_shift(250).unwrap();
    st.start_shift(300).unwrap();
    st.stop_shift(400).unwrap();
    st.start_shift(999).unwrap(); // stays open

    let all = st.get_completed_shift_list(10);
    assert_eq!(all.len(), 3);
    assert_eq!(all[0].time_in, 500);
    assert_eq!(all[1].time_in, 300);
    assert_eq!(all[2].time_in, 100);
    for sh in &all {
        assert!(sh.time_out.is_some());
        assert_eq!(sh.time_diff, Some(sh.time_out.unwrap() - sh.time_in));
    }

    let top2 = st.get_completed_shift_list(2);
    assert_eq!(top2.len(), 2);
    assert_eq!(top2[0].time_in, 500);
    assert_eq!(top2[1].time_in, 300);

    assert_eq!(st.get_completed_shift_list(0).len(), 0);
}

#[test]
fn balance_is_explicit_zero() {
    let mut st = Store::new();
    assert_eq!(st.get_balance(), 0);
    st.start_shift(0).unwrap();
    st.stop_shift(40_000).unwrap();
    assert_eq!(st.get_balance(), 0);
}

#[test]
fn status_reports_inactive_and_active() {
    let mut st = Store::new();
    let rep = st.status(50_000);
    assert!(!rep.active);
    assert_eq!(rep.time_in, None);
    assert_eq!(rep.expected_out, None);
    assert!(rep.remaining.is_none());

    st.start_shift(10_000).unwrap();
    let rep = st.status(50_000);
    assert!(rep.active);
    assert_eq!(rep.time_in, Some(10_000));
    assert_eq!(rep.expected_out, Some(10_000 + 32_400));
    let rem = rep.remaining.unwrap();
    // worked 40_000 of 32_400: 7_600 over, inside the near band
    assert_eq!(rem.delta, 40_000 - 32_400);
}

#[test]
fn from_rows_accepts_consistent_rows() {
    let shifts = vec![
        Shift { id: 1, time_in: 100, time_out: Some(200), time_diff: Some(100) },
        Shift { id: 2, time_in: 300, time_out: None, time_diff: None },
    ];
    let st = Store::from_rows(shifts, Vec::new(), 3).unwrap();
    assert!(st.is_shift_active());
    assert_eq!(st.get_active_shift().unwrap().id, 2);
}

#[test]
fn from_rows_refuses_inconsistent_diff() {
    let shifts = vec![Shift { id: 1, time_in: 100, time_out: Some(200), time_diff: Some(99) }];
    assert_eq!(
        Store::from_rows(shifts, Vec::new(), 2).err(),
        Some(TrackError::Storage)
    );
}

#[test]
fn from_rows_refuses_two_open_shifts() {
    let shifts = vec![
        Shift { id: 1, time_in: 100, time_out: None, time_diff: None },
        Shift { id: 2, time_in: 300, time_out: None, time_diff: None },
    ];
    assert_eq!(
        Store::from_rows(shifts, Vec::new(), 3).err(),
        Some(TrackError::Storage)
    );
}

#[test]
fn from_rows_refuses_unordered_ids() {
    let shifts = vec![
        Shift { id: 2, time_in: 100, time_out: Some(150), time_diff: Some(50) },
        Shift { id: 1, time_in: 300, time_out: Some(350), time_diff: Some(50) },
    ];
    assert_eq!(
        Store::from_rows(shifts, Vec::new(), 3).err(),
        Some(TrackError::Storage)
    );
}
