//! Word tallies, rankings, dispatch and report composition on concrete
//! values.

use vc_stats::report::{build_report, session_report, voice_total_field};
use vc_stats::schedule::{dispatch, Action};
use vc_stats::tally::{rank_desc, split_tokens, tally_words};

fn stops(words: &[&str]) -> Vec<String> {
    words.iter().map(|w| w.to_string()).collect()
}

#[test]
fn splitting_on_whitespace() {
    let toks = split_tokens("the cat  sat\n");
    assert_eq!(toks, vec!["the", "cat", "sat"]);
    assert!(split_tokens("   ").is_empty());
    assert!(split_tokens("").is_empty());
    assert_eq!(split_tokens("one"), vec!["one"]);
}

#[test]
fn word_tally_counts_and_drops_stop_words() {
    let msgs = stops(&["the cat sat", "the dog ran", "cat and dog"]);
    let stop = stops(&["the", "and"]);
    let counts = tally_words(&msgs, &stop);
    assert_eq!(counts.len(), 4);
    let get = |w: &str| {
        counts
            .iter()
            .find(|e| e.0 == w)
            .map(|e| e.1)
            .unwrap_or(0)
    };
    assert_eq!(get("cat"), 2);
    assert_eq!(get("dog"), 2);
    assert_eq!(get("sat"), 1);
    assert_eq!(get("ran"), 1);
    assert_eq!(get("the"), 0);
    assert_eq!(get("and"), 0);

    let ranked = rank_desc(counts);
    assert_eq!(ranked[0].1, 2);
    assert_eq!(ranked[1].1, 2);
    assert_eq!(ranked[2].1, 1);
    assert_eq!(ranked[3].1, 1);
    let mut top: Vec<String> = vec![ranked[0].0.clone(), ranked[1].0.clone()];
    top.sort();
    assert_eq!(top, vec!["cat", "dog"]);
}

#[test]
fn word_tally_lowercases_tokens() {
    let msgs = stops(&["The CAT Cat"]);
    let stop = stops(&["the"]);
    let counts = tally_words(&msgs, &stop);
    assert_eq!(counts, vec![("cat".to_string(), 2)]);
}

#[test]
fn ranking_is_descending_and_keeps_entries() {
    let counts = vec![(1u64, 1u32), (2, 5), (3, 3)];
    let ranked = rank_desc(counts);
    assert_eq!(ranked, vec![(2, 5), (3, 3), (1, 1)]);
}

#[test]
fn dispatch_gates_on_permission() {
    let n = |s: &str| s.to_string();
    assert_eq!(dispatch(&n("set-daily-log-channel"), true), Action::SetDailyLogChannel);
    assert_eq!(dispatch(&n("set-vc-session-log-channel"), true), Action::SetVcLogChannel);
    assert_eq!(dispatch(&n("disable-daily-message-logs"), true), Action::DisableDailyLog);
    assert_eq!(dispatch(&n("disable-vc-session-logs"), true), Action::DisableVcLogs);
    assert_eq!(dispatch(&n("set-daily-log-channel"), false), Action::RefusePermission);
    assert_eq!(dispatch(&n("disable-vc-session-logs"), false), Action::RefusePermission);
    assert_eq!(dispatch(&n("something-else"), true), Action::Unknown);
}

#[test]
fn daily_report_has_exact_fields() {
    let participants = vec![("alice".to_string(), 3u32), ("bob".to_string(), 1u32)];
    let words = stops(&["cat", "dog"]);
    let r = build_report(&participants, &words, 4, 2, 10);
    assert_eq!(r.title, "Active members");
    assert_eq!(r.color, 0xe190de);
    assert_eq!(r.footer.as_deref(), Some("Total messages: 4 | Unique chatters: 2"));
    assert_eq!(r.fields.len(), 4);
    assert_eq!(r.fields[0].name, "#1 alice");
    assert_eq!(r.fields[0].value, "3 messages");
    assert!(r.fields[0].inline);
    assert_eq!(r.fields[1].name, "#2 bob");
    assert_eq!(r.fields[1].value, "1 messages");
    assert_eq!(r.fields[2].name, "Most used words");
    assert_eq!(r.fields[2].value, "cat, dog");
    assert_eq!(r.fields[3].name, "Total time in vc today");
    assert_eq!(r.fields[3].value, "1 second");
}

#[test]
fn daily_report_caps_participants_at_eight() {
    let participants: Vec<(String, u32)> =
        (0..12u32).map(|i| (format!("u{i}"), 12 - i)).collect();
    let r = build_report(&participants, &vec![], 12, 12, 0);
    assert_eq!(r.fields.len(), 10);
    assert_eq!(r.fields[7].name, "#8 u7");
    assert_eq!(r.fields[8].value, "");
}

#[test]
fn session_report_mentions_everyone() {
    let r = session_report(5, &vec![100, 200], 600);
    assert_eq!(r.title, "VC session ended");
    assert_eq!(r.fields.len(), 3);
    assert_eq!(r.fields[0].name, "Channel");
    assert_eq!(r.fields[0].value, "<#5>");
    assert_eq!(r.fields[1].name, "Participants");
    assert_eq!(r.fields[1].value, "<@100>, <@200>");
    assert_eq!(r.fields[2].name, "Time elapsed");
    assert_eq!(r.fields[2].value, "60 seconds");
    let f = voice_total_field(36600);
    assert_eq!(f.name, "Total time in vc today");
    assert_eq!(f.value, "1 hour and 1 minute");
}

#[test]
fn clock_years_clamp_into_the_key_range() {
    let k = vc_stats::daykey::key_of_parts(-5, 1, 1);
    assert_eq!(k.render(), "1-1-0000");
    let k = vc_stats::daykey::key_of_parts(123456, 2, 3);
    assert_eq!(k.render(), "2-3-9999");
    let k = vc_stats::daykey::key_of_parts(2024, 3, 7);
    assert_eq!(k.render(), "3-7-2024");
}

#[test]
fn greeting_goes_to_general_or_the_fallback() {
    let chans = vec![(1u64, "random".to_string()), (2, "general".to_string()), (3, "general".to_string())];
    assert_eq!(vc_stats::schedule::welcome_channel(&chans, 9), 2);
    let chans = vec![(1u64, "random".to_string())];
    assert_eq!(vc_stats::schedule::welcome_channel(&chans, 9), 9);
}
