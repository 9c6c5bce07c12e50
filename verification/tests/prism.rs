use osap_host::speech::prism::{
    first_to_say, found_line, next_look, refusal_line, searcher_due, stall_line, stalled_after, timing_line,
    worth_saying, Retry, Search, Sighting, Why, NOTHING_OPENED_AT_START, RETRY_CAPPED_MS, RETRY_LATER_MS, RETRY_SOON_MS,
    SCHEDULE,
};

fn secs(s: u64) -> u64 {
    s * 1000
}

fn jaws(why: &str) -> Sighting {
    Sighting::Refusing { name: "JAWS".into(), why: why.into() }
}

#[test]
fn the_schedule() {
    for s in [0, 3, 59, 60, 61, 90, 299] {
        assert_eq!(next_look(secs(s), true), RETRY_SOON_MS, "running, {s} s in");
    }
    for s in [300, 301, 3600] {
        assert_eq!(next_look(secs(s), true), RETRY_CAPPED_MS, "running, {s} s in");
    }
    for s in [0, 3, 57, 59] {
        assert_eq!(next_look(secs(s), false), RETRY_SOON_MS, "none running, {s} s in");
    }
    for s in [60, 61, 90, 3600] {
        assert_eq!(next_look(secs(s), false), RETRY_LATER_MS, "none running, {s} s in");
    }
}

#[test]
fn a_reader_that_runs_and_will_not_open_keeps_the_fast_pace() {
    let mut search = Search::new();
    let (nap, line) = search.after_look(secs(0), jaws("prism error 17: Unknown error"));
    assert_eq!(nap, RETRY_SOON_MS);
    let line = line.expect("the first look is news");
    assert!(line.starts_with("JAWS is running but would not open (prism error 17: Unknown error)"), "{line}");
    assert!(line.contains("every 3 s for five minutes, then every 10 s, for as long as it runs"), "{line}");
    let mut t = 3;
    while t < 300 {
        let why = if t % 2 == 0 { "prism error 17: Unknown error" } else { "prism error 16: Backend not available" };
        let (nap, line) = search.after_look(secs(t), jaws(why));
        assert_eq!(nap, RETRY_SOON_MS, "{t} s in");
        assert_eq!(line, None, "{t} s in");
        t += 3;
    }
    let (nap, line) = search.after_look(secs(300), jaws("prism error 17: Unknown error"));
    assert_eq!(nap, RETRY_CAPPED_MS);
    let line = line.expect("the pace dropping is news");
    assert!(line.starts_with("JAWS still would not open five minutes"), "{line}");
    assert!(line.ends_with("every 10 s from now"), "{line}");
    assert_eq!(search.after_look(secs(310), jaws("prism error 17: Unknown error")), (RETRY_CAPPED_MS, None));
}

#[test]
fn the_fast_pace_counts_from_the_reader_first_seen() {
    let mut search = Search::new();
    assert_eq!(search.after_look(secs(0), Sighting::NoneRunning).0, RETRY_SOON_MS);
    assert_eq!(search.after_look(secs(600), Sighting::NoneRunning).0, RETRY_LATER_MS);
    let (nap, line) = search.after_look(secs(630), jaws("prism error 9: Internal backend error"));
    assert_eq!(nap, RETRY_SOON_MS);
    assert!(line.expect("news").contains("every 3 s for five minutes"));
    assert_eq!(search.after_look(secs(929), jaws("prism error 9: Internal backend error")).0, RETRY_SOON_MS);
    assert_eq!(search.after_look(secs(930), jaws("prism error 9: Internal backend error")).0, RETRY_CAPPED_MS);
}

#[test]
fn a_reader_checked_through_its_processes_does_not_keep_the_fast_pace() {
    for name in ["ZDSR", "BoyPCReader"] {
        let seen = || Sighting::Refusing { name: name.into(), why: "prism error 16: Backend not available".into() };
        let mut search = Search::new();
        let (nap, line) = search.after_look(secs(0), seen());
        assert_eq!(nap, RETRY_SOON_MS, "{name}");
        let line = line.expect("the first look is news");
        assert!(line.starts_with(&format!("{name} would not open (prism error 16")), "{line}");
        assert!(line.contains("background services"), "{line}");
        assert!(line.ends_with("every 3 s until a minute has passed, then every 30 s"), "{line}");
        assert_eq!(search.after_look(secs(57), seen()), (RETRY_SOON_MS, None), "{name}");
        let (nap, line) = search.after_look(secs(60), seen());
        assert_eq!(nap, RETRY_LATER_MS, "{name}");
        assert!(line.expect("news").starts_with(&format!("{name} still would not open a minute")));
    }
}

#[test]
fn a_reader_that_is_gone_slows_down_after_a_minute() {
    let mut search = Search::new();
    let (nap, line) = search.after_look(secs(0), Sighting::NoneRunning);
    assert_eq!(nap, RETRY_SOON_MS);
    let line = line.expect("the first look is news");
    assert!(line.starts_with("no screen reader is running"), "{line}");
    assert!(line.contains("every 3 s until a minute has passed, then every 30 s"), "{line}");
    assert_eq!(search.after_look(secs(3), Sighting::NoneRunning), (RETRY_SOON_MS, None));
    assert_eq!(search.after_look(secs(57), Sighting::NoneRunning), (RETRY_SOON_MS, None));
    let (nap, line) = search.after_look(secs(60), Sighting::NoneRunning);
    assert_eq!(nap, RETRY_LATER_MS);
    assert!(line.expect("the pace dropping is news").contains("every 30 s from now"));
    assert_eq!(search.after_look(secs(90), Sighting::NoneRunning), (RETRY_LATER_MS, None));
    let (nap, line) = search.after_look(secs(120), jaws("prism error 17: Unknown error"));
    assert_eq!(nap, RETRY_SOON_MS);
    assert!(line.expect("news").starts_with("JAWS is running but would not open"));
    let (nap, line) = search.after_look(secs(123), Sighting::NoneRunning);
    assert_eq!(nap, RETRY_LATER_MS);
    let line = line.expect("news");
    assert!(line.starts_with("no screen reader is running"), "{line}");
    assert!(line.ends_with("every 30 s"), "{line}");
}

#[test]
fn a_search_from_start_up_says_what_it_saw() {
    assert!(NOTHING_OPENED_AT_START.starts_with("no screen reader would open"));
    assert!(!NOTHING_OPENED_AT_START.contains("no screen reader is running"), "{NOTHING_OPENED_AT_START}");
    let mut search = Search::new();
    let (nap, line) = search.after_look(secs(0), jaws("prism error 9: Internal backend error"));
    assert_eq!(nap, RETRY_SOON_MS);
    assert!(line.expect("the first look is news").starts_with("JAWS is running but would not open"));
    let mut search = Search::new();
    let (_, line) = search.after_look(secs(0), Sighting::NoneRunning);
    assert!(line.expect("the first look is news").starts_with("no screen reader is running"));
    assert_eq!(found_line(Why::NoneAtStart, "JAWS"), "JAWS is open now; speaking through it from now on");
    assert_eq!(found_line(Why::Lost, "JAWS"), "back to JAWS");
    assert_eq!(found_line(Why::Ticked, "NVDA"), "speaking through NVDA");
}

#[test]
fn when_a_searcher_goes() {
    assert_eq!(searcher_due(false, false, true), Some(Why::Lost));
    assert_eq!(searcher_due(false, false, false), Some(Why::NoneAtStart));
    assert_eq!(searcher_due(true, false, false), None);
    assert_eq!(searcher_due(true, false, true), Some(Why::Lost));
    assert_eq!(searcher_due(true, true, true), Some(Why::Ticked));
    assert_eq!(searcher_due(true, true, false), Some(Why::Ticked));
}

#[test]
fn a_reader_running_by_its_own_check_that_goes_on_refusing_keeps_the_pace_for_five_minutes() {
    let mut search = Search::new();
    let nvda = || Sighting::Refusing { name: "NVDA".into(), why: "prism error 9: Internal backend error".into() };
    assert_eq!(search.after_look(secs(10), nvda()).0, RETRY_SOON_MS);
    assert_eq!(search.after_look(secs(309), nvda()), (RETRY_SOON_MS, None));
    let (nap, line) = search.after_look(secs(310), nvda());
    assert_eq!(nap, RETRY_CAPPED_MS);
    assert_eq!(
        line.as_deref(),
        Some("NVDA still would not open five minutes after it was first seen running; looking every 10 s from now")
    );
}

#[test]
fn an_interrupting_line_makes_what_came_before_it_stale() {
    assert_eq!(first_to_say(&vec![]), 0);
    assert_eq!(first_to_say(&vec![false, false]), 0);
    assert_eq!(first_to_say(&vec![false, true, false, true, false]), 3, "the name and the value after it");
    assert_eq!(first_to_say(&vec![true]), 0);
}

#[test]
fn the_deadlines_of_a_line() {
    assert!(worth_saying(999) && !worth_saying(1000));
    assert!(!stalled_after(299) && stalled_after(300));
}

#[test]
fn the_log_names_what_failed_and_what_comes_next() {
    let s = refusal_line("NVDA", "prism error 9: Internal backend error", true);
    assert!(s.starts_with("NVDA refused a line (prism error 9: Internal backend error, from the call that speaks it and writes it to the braille display), so"), "{s}");
    assert!(s.contains(SCHEDULE) && s.ends_with("off and on again looks at once."), "{s}");
    assert!(refusal_line("JAWS", "x", false).contains("from the call that speaks it), so"));
    assert!(stall_line().starts_with("the screen reader has not answered a line in 300 ms, so"));
    assert_eq!(timing_line("NVDA", 12, true).as_deref(), Some("the first line through NVDA took 12 ms"));
    assert_eq!(timing_line("NVDA", 149, false), None);
    assert_eq!(timing_line("NVDA", 150, false).as_deref(), Some("a line through NVDA took 150 ms"));
}

/// Asking twice does not send a second searcher.
#[test]
fn only_one_searcher_at_a_time() {
    let mut retry = Retry::new();
    // The worker is not healthy: its screen reader failed at start-up.
    let first = retry.retry_if_due(false, false, false);
    assert_eq!(first, Some(Why::NoneAtStart), "nobody was sent to look");
    let second = retry.retry_if_due(false, false, false);
    assert_eq!(second, None, "a second searcher was started while the first was still looking");
    // Found again: healthy, and the next loss sends a new one.
    assert_eq!(retry.retry_if_due(true, false, true), None);
    assert_eq!(retry.retry_if_due(false, false, true), Some(Why::Lost));
}
