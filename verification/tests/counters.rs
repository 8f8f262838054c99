//! The daily voice-time counters, exercised on concrete values.

use vc_stats::daykey::DayKey;
use vc_stats::store::Store;

#[test]
fn two_increments_accumulate_and_read_back() {
    let mut st = Store::new();
    let d = DayKey::from_ymd(2024, 3, 7);
    let t1 = st.add_elapsed(1, d, 100);
    assert_eq!(t1, 100);
    let t2 = st.add_elapsed(1, d, 50);
    assert_eq!(t2, 150);
    assert_eq!(st.read(1, d), Some(150));
}

#[test]
fn absent_counter_reads_as_none() {
    let st = Store::new();
    let d = DayKey::from_ymd(2024, 3, 7);
    assert_eq!(st.read(7, d), None);
}

#[test]
fn counters_are_keyed_by_guild_and_day() {
    let mut st = Store::new();
    let d1 = DayKey::from_ymd(2024, 3, 7);
    let d2 = DayKey::from_ymd(2024, 3, 8);
    st.add_elapsed(1, d1, 10);
    st.add_elapsed(2, d1, 20);
    st.add_elapsed(1, d2, 30);
    assert_eq!(st.read(1, d1), Some(10));
    assert_eq!(st.read(2, d1), Some(20));
    assert_eq!(st.read(1, d2), Some(30));
    assert_eq!(st.read(2, d2), None);
}

#[test]
fn many_unit_increments_sum_exactly() {
    let mut st = Store::new();
    let d = DayKey::from_ymd(2024, 3, 7);
    for _ in 0..64 {
        st.add_elapsed(9, d, 1);
    }
    assert_eq!(st.read(9, d), Some(64));
}

#[test]
fn missing_counter_reports_zero_seconds() {
    let st = Store::new();
    let d = DayKey::from_ymd(2024, 3, 7);
    let text = vc_stats::schedule::voice_time_field(st.read(42, d));
    assert_eq!(text, "0 seconds");
}

#[test]
fn window_keeps_one_day_of_messages() {
    assert!(vc_stats::schedule::within_window(1000000, 1000000 - 86400));
    assert!(!vc_stats::schedule::within_window(1000000, 1000000 - 86401));
    assert!(vc_stats::schedule::within_window(1000000, 1000000));
    // a timestamp ahead of the clock is not in the last day
    assert!(!vc_stats::schedule::within_window(1000000, 1000000 + 500));
}

#[test]
fn config_rows_are_created_set_and_disabled() {
    let mut st = Store::new();
    assert_eq!(st.daily_log_channel(1), None);
    assert_eq!(st.vc_logs_channel(1), None);
    st.set_daily_log_channel(1, 77);
    assert_eq!(st.daily_log_channel(1), Some(77));
    assert_eq!(st.vc_logs_channel(1), None);
    st.set_vc_log_channel(1, 88);
    assert_eq!(st.daily_log_channel(1), Some(77));
    assert_eq!(st.vc_logs_channel(1), Some(88));
    st.disable_daily_log(1);
    assert_eq!(st.daily_log_channel(1), None);
    assert_eq!(st.vc_logs_channel(1), Some(88));
    st.disable_vc_logs(1);
    assert_eq!(st.vc_logs_channel(1), None);
    // disabling a guild that has no row stays a no-op
    st.disable_daily_log(9);
    assert_eq!(st.daily_log_channel(9), None);
}

#[test]
fn add_elapsed_creates_the_config_row_too() {
    let mut st = Store::new();
    let d = DayKey::from_ymd(2024, 3, 7);
    st.add_elapsed(5, d, 10);
    // the row exists with both channels unset
    assert_eq!(st.daily_log_channel(5), None);
    st.set_vc_log_channel(5, 44);
    assert_eq!(st.read(5, d), Some(10));
}
