use osap_host::policy::{AGING_MS, PER_OWNER, TOTAL};
use osap_host::sched::{JobId, Owner, Scheduler, Stage, Ticket, TicketId, TOO_MANY};
use osap_host::types::Priority;

type S = &'static str;
type Sched = Scheduler<S, u32>;

const A: Owner = Owner { idx: 1, gen: 10 };
const B: Owner = Owner { idx: 2, gen: 20 };
const C: Owner = Owner { idx: 3, gen: 30 };

/// A clock reading in milliseconds, far enough from zero that nothing saturates.
const T0: u64 = 1_000_000;

fn t(id: TicketId, owner: Owner, key: Option<&str>, prio: Priority) -> Ticket {
    Ticket { id, owner, key: key.map(str::to_string), prio }
}

fn bg(id: TicketId, owner: Owner, key: Option<&str>) -> Ticket {
    t(id, owner, key, Priority::Background)
}

fn fg(id: TicketId, owner: Owner, key: Option<&str>) -> Ticket {
    t(id, owner, key, Priority::Interactive)
}

/// Captures and recognises the next job at once; returns its tickets' ids.
fn run(s: &mut Sched, now: u64) -> Option<(JobId, Vec<TicketId>)> {
    let (id, _) = s.take_capture(false, now)?;
    assert!(s.captured(id, 7, 100, now));
    let started = s.next_recognise(now)?;
    assert_eq!(started.id, id);
    Some((id, s.finished(id).into_iter().map(|t| t.id).collect()))
}

#[test]
fn the_same_request_before_its_picture_is_one_job_across_modules() {
    let now = T0;
    let mut s = Sched::new();
    let a = s.submit("menu", bg(1, A, None), now);
    let b = s.submit("menu", fg(2, B, None), now);
    assert!(!a.joined && b.joined);
    assert_eq!(a.job, b.job);
    assert_eq!(s.len(), 1);
    assert!(s.interactive_waiting());
    let other = s.submit("value", bg(3, A, None), now);
    assert_ne!(other.job, a.job);
    let (_, tickets) = run(&mut s, now).unwrap();
    assert_eq!(tickets, vec![1, 2], "interactive first, and both callers answered");
}

#[test]
fn nothing_joins_a_job_whose_picture_is_being_taken() {
    let now = T0;
    let mut s = Sched::new();
    let first = s.submit("menu", bg(1, A, None), now).job.unwrap();
    let (id, _) = s.take_capture(false, now).unwrap();
    assert_eq!(id, first);
    let second = s.submit("menu", bg(2, B, None), now);
    assert!(!second.joined, "a picture taken before the call is not new enough for it");
    assert_ne!(second.job, Some(first));
}

#[test]
fn a_key_makes_older_tickets_stale_until_recognition_starts() {
    let now = T0;
    let mut s = Sched::new();
    s.submit("r1", bg(1, A, Some("k")), now);
    let (id, _) = s.take_capture(false, now).unwrap();
    assert!(s.captured(id, 1, 10, now));
    let second = s.submit("r2", bg(2, A, Some("k")), now);
    assert_eq!(second.stale, vec![1]);
    assert_eq!(s.stage(id), None, "a job nobody waits for is dropped, pixels and all");
    assert_eq!(s.captured_bytes(), 0);
    let (id2, _) = s.take_capture(false, now).unwrap();
    assert!(s.captured(id2, 2, 10, now));
    assert!(s.next_recognise(now).is_some());
    let third = s.submit("r3", bg(3, A, Some("k")), now);
    assert!(third.stale.is_empty(), "a started recognition is delivered as it is");
    assert_eq!(s.finished(id2).len(), 1);
}

#[test]
fn a_key_only_supersedes_the_same_vm_and_the_same_key() {
    let now = T0;
    let mut s = Sched::new();
    s.submit("r", bg(1, A, Some("k")), now);
    s.submit("r2", bg(2, A, Some("other")), now);
    s.submit("r3", bg(3, A, None), now);
    s.submit("r4", bg(4, B, Some("k")), now);
    s.submit("r5", bg(5, Owner { idx: 1, gen: 11 }, Some("k")), now);
    let out = s.submit("r6", bg(6, A, Some("k")), now);
    assert_eq!(out.stale, vec![1]);
}

#[test]
fn superseding_on_its_own_follows_the_same_rule() {
    let now = T0;
    let mut s = Sched::new();
    s.submit("r1", bg(1, A, Some("k")), now);
    let (id, _) = s.take_capture(false, now).unwrap();
    assert!(s.captured(id, 1, 10, now));
    assert!(s.next_recognise(now).is_some(), "1 is recognising");
    s.submit("r2", bg(2, A, Some("k")), now);
    s.submit("r3", bg(3, B, Some("k")), now);
    s.submit("r4", bg(4, A, None), now);
    assert_eq!(s.supersede(A, "k"), vec![2], "the waiting one, not the one recognising");
    assert_eq!(s.len(), 3, "r2's job is gone, and nothing was added");
    assert!(s.supersede(A, "k").is_empty());
}

#[test]
fn a_superseded_capture_in_progress_is_dropped_when_it_lands() {
    let now = T0;
    let mut s = Sched::new();
    s.submit("r1", bg(1, A, Some("k")), now);
    let (id, _) = s.take_capture(false, now).unwrap();
    let out = s.submit("r2", bg(2, A, Some("k")), now);
    assert_eq!(out.stale, vec![1]);
    assert!(!s.captured(id, 1, 10, now), "nobody waits for it: the caller drops the pixels");
}

#[test]
fn the_seventeenth_evicts_the_oldest_unkeyed_or_is_refused_when_all_are_keyed() {
    let now = T0;
    let mut s = Sched::new();
    for i in 0..PER_OWNER as u64 {
        let key = if i == 0 { Some("k0") } else { None };
        s.submit(if i % 2 == 0 { "even" } else { "odd" }, bg(i + 1, A, key), now);
    }
    let out = s.submit("new", bg(100, A, None), now);
    assert_eq!(out.evicted, vec![2], "the oldest UNKEYED ticket");
    assert!(out.job.is_some());
    assert!(s.submit("b", bg(200, B, None), now).refused.is_none());

    let mut s = Sched::new();
    for i in 0..PER_OWNER as u64 {
        let key = format!("k{i}");
        s.submit("x", Ticket { id: i + 1, owner: A, key: Some(key), prio: Priority::Background }, now);
    }
    let out = s.submit("y", bg(99, A, None), now);
    assert!(out.evicted.is_empty());
    assert_eq!(out.refused.as_deref(), Some(TOO_MANY));
    assert_eq!(out.job, None);
}

#[test]
fn the_total_cap_refuses_and_joining_is_still_allowed() {
    let now = T0;
    let mut s: Scheduler<u64, u32> = Scheduler::new();
    for i in 0..TOTAL as u64 {
        let owner = Owner { idx: (i / 8) as usize, gen: 1 };
        assert!(s.submit(i, bg(i + 1, owner, None), now).refused.is_none());
    }
    let out = s.submit(9999, bg(5000, Owner { idx: 99, gen: 1 }, None), now);
    assert!(out.refused.is_some());
    let joined = s.submit(3, bg(5001, Owner { idx: 99, gen: 1 }, None), now);
    assert!(joined.joined && joined.refused.is_none());
}

#[test]
fn interactive_goes_first_until_a_background_job_has_waited_too_long() {
    let t0 = T0;
    let mut s = Sched::new();
    s.submit("poll", bg(1, A, None), t0);
    s.submit("tab", fg(2, B, None), t0);
    let (first, _) = s.take_capture(false, t0).unwrap();
    assert!(s.captured(first, 0, 0, t0));
    let (second, _) = s.take_capture(false, t0).unwrap();
    assert!(s.captured(second, 0, 0, t0));
    assert_eq!(s.next_recognise(t0).unwrap().prio, Priority::Interactive);

    let mut s = Sched::new();
    s.submit("poll", bg(1, A, None), t0);
    s.submit("tab", fg(2, B, None), t0);
    for _ in 0..2 {
        let (id, _) = s.take_capture(false, t0).unwrap();
        assert!(s.captured(id, 0, 0, t0));
    }
    let later = t0 + AGING_MS + 1;
    assert_eq!(s.next_recognise(later).unwrap().prio, Priority::Background, "aged");
}

#[test]
fn modules_take_turns_within_a_lane() {
    let now = T0;
    let mut s = Sched::new();
    s.submit("a1", bg(1, A, None), now);
    s.submit("a2", bg(2, A, None), now);
    s.submit("a3", bg(3, A, None), now);
    s.submit("b1", bg(4, B, None), now);
    s.submit("c1", bg(5, C, None), now);
    while let Some((id, _)) = s.take_capture(false, now) {
        assert!(s.captured(id, 0, 0, now));
    }
    let mut order = Vec::new();
    while let Some(started) = s.next_recognise(now) {
        order.push(started.spec);
        s.finished(started.id);
    }
    assert_eq!(order, vec!["a1", "b1", "c1", "a2", "a3"]);
}

#[test]
fn cancelling_a_module_keeps_jobs_others_joined() {
    let now = T0;
    let mut s = Sched::new();
    s.submit("shared", bg(1, A, None), now);
    s.submit("shared", bg(2, B, None), now);
    s.submit("mine", bg(3, A, None), now);
    let gone = s.cancel_owner(A.idx);
    assert_eq!(gone, vec![1, 3]);
    assert_eq!(s.len(), 1);
    let (_, tickets) = run(&mut s, now).unwrap();
    assert_eq!(tickets, vec![2]);
    s.submit("x", bg(4, A, None), now);
    let (id, _) = s.take_capture(false, now).unwrap();
    assert!(s.captured(id, 0, 0, now));
    let started = s.next_recognise(now).unwrap();
    assert_eq!(s.cancel_owner(A.idx), vec![4]);
    assert_eq!(s.stage(started.id), Some(Stage::Recognising));
    assert!(s.finished(started.id).is_empty());
    assert!(s.is_empty());
}

#[test]
fn the_barrier_clears_once_the_modules_pictures_are_taken() {
    let now = T0;
    let mut s = Sched::new();
    assert!(s.barrier_clear(A.idx), "nothing asked: nothing to wait for");
    s.submit("r", bg(1, A, None), now);
    assert!(!s.barrier_clear(A.idx));
    assert!(s.barrier_clear(B.idx), "another module's reads do not hold A's input");
    let (id, _) = s.take_capture(false, now).unwrap();
    assert!(!s.barrier_clear(A.idx), "being taken is not taken");
    assert!(s.captured(id, 0, 0, now));
    assert!(s.barrier_clear(A.idx));
}

#[test]
fn background_captures_wait_while_the_budget_is_exceeded() {
    let now = T0;
    let mut s = Sched::new();
    s.submit("poll", bg(1, A, None), now);
    assert!(s.take_capture(true, now).is_none());
    s.submit("tab", fg(2, B, None), now);
    let (_, spec) = s.take_capture(true, now).unwrap();
    assert_eq!(spec, "tab", "interactive captures always proceed");
    let (_, spec) = s.take_capture(false, now).unwrap();
    assert_eq!(spec, "poll");
    let mut s = Sched::new();
    s.submit("a", bg(1, A, None), now);
    let (id, _) = s.take_capture(false, now).unwrap();
    assert!(s.captured(id, 0, 4096, now));
    assert_eq!(s.captured_bytes(), 4096);
    assert!(s.next_recognise(now).is_some());
    assert_eq!(s.captured_bytes(), 0, "handed to the recogniser, out of the budget");
}

#[test]
fn a_stream_of_interactive_reads_does_not_starve_a_background_capture() {
    let t0 = T0;
    let mut s: Scheduler<u64, u32> = Scheduler::new();
    let (poll, pad) = (Owner { idx: 2, gen: 1 }, Owner { idx: 1, gen: 1 });
    s.submit(9999, bg(1, poll, Some("menu")), t0);
    let mut photographed_at = None;
    for frame in 0..600u64 {
        let now = t0 + frame * 16;
        s.submit(frame, fg(10 + frame, pad, Some("hover")), now);
        if let Some((job, spec)) = s.take_capture(false, now) {
            if spec == 9999 {
                photographed_at = Some(now - t0);
                break;
            }
            assert!(s.captured(job, 0, 0, now));
            let started = s.next_recognise(now).unwrap();
            s.finished(started.id);
        }
    }
    let at = photographed_at.expect("the poll was never photographed");
    assert!(at >= AGING_MS && at < AGING_MS + 40, "{at:?}");
}

#[test]
fn an_aged_background_capture_still_respects_the_budget() {
    let t0 = T0;
    let mut s = Sched::new();
    s.submit("poll", bg(1, A, None), t0);
    s.submit("tab", fg(2, B, None), t0);
    let later = t0 + AGING_MS * 2;
    let (_, spec) = s.take_capture(true, later).unwrap();
    assert_eq!(spec, "tab");
    assert!(s.take_capture(true, later).is_none());
}

#[test]
fn a_job_is_interactive_only_while_an_interactive_ticket_is_on_it() {
    let now = T0;
    let mut s = Sched::new();
    s.submit("poll", bg(1, B, None), now);
    s.submit("poll", fg(2, A, Some("k")), now);
    assert!(s.interactive_waiting());
    let out = s.submit("other", bg(3, A, Some("k")), now);
    assert_eq!(out.stale, vec![2]);
    assert!(!s.interactive_waiting(), "only background tickets are left");
    assert!(s.take_capture(true, now).is_none(), "and background waits for the budget");

    let mut s = Sched::new();
    s.submit("poll", bg(1, B, None), now);
    s.submit("poll", fg(2, A, None), now);
    assert_eq!(s.cancel_owner(A.idx), vec![2]);
    assert!(!s.interactive_waiting());

    let mut s = Sched::new();
    s.submit("shared", fg(1, A, None), now);
    s.submit("shared", bg(2, B, None), now);
    for i in 0..(PER_OWNER as u64 - 1) {
        s.submit("mine", bg(10 + i, A, Some(&format!("k{i}"))), now);
    }
    let out = s.submit("mine", bg(99, A, Some("last")), now);
    assert_eq!(out.evicted, vec![1]);
    assert!(!s.interactive_waiting());
}

#[test]
fn an_expedited_modules_picture_is_taken_first_whatever_the_budget() {
    let now = T0;
    let mut s = Sched::new();
    s.submit("tab", fg(1, B, None), now);
    s.submit("mine", bg(2, A, None), now);
    s.submit("other", bg(3, C, None), now);
    assert!(!s.expedite(9), "a module with nothing waiting has nothing to hurry");
    assert!(s.expedite(A.idx));
    let (_, spec) = s.take_capture(true, now).unwrap();
    assert_eq!(spec, "mine");
    let (_, spec) = s.take_capture(true, now).unwrap();
    assert_eq!(spec, "tab");
    assert!(s.take_capture(true, now).is_none(), "C's is not hurried");
    let mut s = Sched::new();
    s.submit("mine", bg(1, A, None), now);
    s.take_capture(false, now).unwrap();
    assert!(!s.expedite(A.idx));
}

#[test]
fn a_poll_slower_than_its_period_still_delivers_every_started_recognition() {
    let t0 = T0;
    let at = |ms: u64| t0 + ms;
    let mut s = Sched::new();
    let mut running: Option<(JobId, u64)> = None;
    let mut delivered = 0;
    let mut stale = 0;
    for tick in 0..=40u64 {
        let now_ms = tick * 50;
        if let Some((id, ends)) = running {
            if now_ms >= ends {
                delivered += s.finished(id).len();
                running = None;
            }
        }
        if now_ms % 150 == 0 {
            let out = s.submit("poll", bg(tick + 1, A, Some("menu")), at(now_ms));
            stale += out.stale.len();
            if let Some((id, _)) = s.take_capture(false, at(now_ms)) {
                assert!(s.captured(id, 0, 0, at(now_ms)));
            }
        }
        if running.is_none() {
            if let Some(started) = s.next_recognise(at(now_ms)) {
                running = Some((started.id, now_ms + 200));
            }
        }
    }
    assert!(delivered >= 8, "delivered {delivered}, stale {stale}");
    assert!(stale > 0, "some reads never started and were stale");
}
