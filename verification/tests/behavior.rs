//! End-to-end behaviour of the library, exercised on concrete values.

use vc_stats::daykey::DayKey;
use vc_stats::duration::format_from_seconds;
use vc_stats::strutil::u64_to_string;
use vc_stats::tracker::Tracker;

#[test]
fn decimal_rendering() {
    assert_eq!(u64_to_string(0), "0");
    assert_eq!(u64_to_string(7), "7");
    assert_eq!(u64_to_string(1234), "1234");
    assert_eq!(u64_to_string(1000000), "1000000");
}

#[test]
fn day_key_format_is_non_padded_month_day_year() {
    let k = DayKey::from_ymd(2024, 3, 7);
    assert_eq!(k.render(), "3-7-2024");
    let k = DayKey::from_ymd(2024, 12, 31);
    assert_eq!(k.render(), "12-31-2024");
    let k = DayKey::from_ymd(987, 1, 1);
    assert_eq!(k.render(), "1-1-0987");
}

#[test]
fn today_key_renders() {
    let s = vc_stats::daykey::get_timestamp();
    assert!(!s.is_empty());
    assert_eq!(s.matches('-').count(), 2);
}

// Durations are carried in tenths of a second.
#[test]
fn one_second_is_singular() {
    assert_eq!(format_from_seconds(10), "1 second");
}

#[test]
fn ninety_seconds() {
    assert_eq!(format_from_seconds(900), "1 minute and 30 seconds");
}

#[test]
fn one_hour_one_minute() {
    assert_eq!(format_from_seconds(36600), "1 hour and 1 minute");
}

#[test]
fn just_over_an_hour_shows_decimal_minutes() {
    // 3661 s: one whole hour and 61 s = 1.016.. min, shown with one decimal
    assert_eq!(format_from_seconds(36610), "1 hour and 1.0 minutes");
}

#[test]
fn fractional_seconds() {
    assert_eq!(format_from_seconds(455), "45.5 seconds");
}

#[test]
fn zero_seconds_plural() {
    assert_eq!(format_from_seconds(0), "0 seconds");
}

#[test]
fn sixty_seconds_stays_in_seconds() {
    assert_eq!(format_from_seconds(600), "60 seconds");
}

#[test]
fn session_lifecycle_emits_one_event_with_cumulative_members() {
    let mut t = Tracker::new();
    // channel 5 of guild 1 occupied by user 100
    let snap1 = vec![(5u64, vec![100u64])];
    let ev = t.observe(1, &snap1, 10);
    assert!(ev.is_empty());
    // user 200 joins; user 100 may have left, the set stays cumulative
    let snap2 = vec![(5u64, vec![200u64])];
    let ev = t.observe(1, &snap2, 30);
    assert!(ev.is_empty());
    // channel empties
    let snap3: Vec<(u64, Vec<u64>)> = vec![];
    let ev = t.observe(1, &snap3, 70);
    assert_eq!(ev.len(), 1);
    assert_eq!(ev[0].channel, 5);
    assert_eq!(ev[0].guild, 1);
    let mut members = ev[0].members.clone();
    members.sort();
    assert_eq!(members, vec![100, 200]);
    assert_eq!(ev[0].duration, 60);
}

#[test]
fn unchanged_snapshot_emits_nothing_and_keeps_start() {
    let mut t = Tracker::new();
    let snap = vec![(5u64, vec![100u64])];
    assert!(t.observe(1, &snap, 10).is_empty());
    assert!(t.observe(1, &snap, 20).is_empty());
    assert!(t.observe(1, &snap, 30).is_empty());
    // the session still measures from the first sighting
    let ev = t.observe(1, &vec![], 110);
    assert_eq!(ev.len(), 1);
    assert_eq!(ev[0].duration, 100);
}

#[test]
fn other_guilds_are_untouched() {
    let mut t = Tracker::new();
    assert!(t.observe(1, &vec![(5u64, vec![100u64])], 10).is_empty());
    assert!(t.observe(2, &vec![(9u64, vec![300u64])], 20).is_empty());
    // guild 2 empties; guild 1's session must survive
    let ev = t.observe(2, &vec![], 50);
    assert_eq!(ev.len(), 1);
    assert_eq!(ev[0].channel, 9);
    let ev = t.observe(1, &vec![], 90);
    assert_eq!(ev.len(), 1);
    assert_eq!(ev[0].channel, 5);
    assert_eq!(ev[0].duration, 80);
}

#[test]
fn two_channels_empty_in_one_snapshot() {
    let mut t = Tracker::new();
    let snap = vec![(5u64, vec![100u64]), (6u64, vec![200u64, 201u64])];
    assert!(t.observe(1, &snap, 10).is_empty());
    let mut ev = t.observe(1, &vec![], 40);
    assert_eq!(ev.len(), 2);
    ev.sort_by_key(|e| e.channel);
    assert_eq!(ev[0].channel, 5);
    assert_eq!(ev[1].channel, 6);
    assert_eq!(ev[1].members.len(), 2);
}

#[test]
fn listed_channel_with_no_occupants_counts_as_empty() {
    let mut t = Tracker::new();
    assert!(t.observe(1, &vec![(5u64, vec![100u64])], 10).is_empty());
    let ev = t.observe(1, &vec![(5u64, vec![])], 25);
    assert_eq!(ev.len(), 1);
    assert_eq!(ev[0].duration, 15);
}

#[test]
fn author_tally_counts_each_author() {
    // three messages by author 1, two by 2, one by 3
    let ids = vec![1u64, 2, 1, 3, 2, 1];
    let counts = vc_stats::tally::tally_authors(&ids);
    assert_eq!(counts, vec![(1, 3), (2, 2), (3, 1)]);
}

#[test]
fn author_tally_of_nothing_is_empty() {
    let counts = vc_stats::tally::tally_authors(&vec![]);
    assert!(counts.is_empty());
}
