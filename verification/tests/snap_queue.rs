use osap_host::policy::UNION_MAX;
use osap_host::sched::{Cand, Class, Owner};
use osap_host::snap_queue::{
    round_shots,
    choose_queue, from_usable, group, holds_input, min_round, plan_round, CaptureSource, Frame, FrameVia, Pick,
    Platform, RoundDone, SnapId, SnapKind, SnapLane, SnapOutcome, SnapReq, SnapTicket, Step,
};
use osap_host::types::{Priority, Rect};
use std::sync::atomic::AtomicBool;
use std::sync::Arc;

const A: Owner = Owner { idx: 1, gen: 1 };
const B: Owner = Owner { idx: 2, gen: 1 };
const DUP: CaptureSource = CaptureSource::Duplication { or_standard: true };
/// A clock reading in milliseconds.
const T0: u64 = 1_000_000;

fn req(id: SnapId, owner: Owner, region: Rect, kind: SnapKind, asked: u64) -> SnapReq {
    let holds = matches!(kind, SnapKind::Plain);
    SnapReq {
        ticket: SnapTicket { id, owner, prio: Priority::Background },
        region,
        source: CaptureSource::Standard,
        kind,
        asked,
        holds,
        cancel: Arc::new(AtomicBool::new(false)),
    }
}

fn one_display() -> SnapLane<fn(i32, i32) -> u32> {
    fn any(_: i32, _: i32) -> u32 {
        0
    }
    SnapLane::new(any)
}

#[test]
fn union_capture_le_2mpx_else_each() {
    let a = Rect::new(0, 0, 100, 100);
    let b = Rect::new(900, 900, 100, 100);
    let (rects, at) = plan_round(&[a, b, a], CaptureSource::Standard);
    assert_eq!(rects, vec![Rect::new(0, 0, 1000, 1000)], "a million pixels: one capture of the union");
    assert_eq!(at, vec![0, 0, 0]);
    let far = Rect::new(3000, 3000, 100, 100);
    let (rects, at) = plan_round(&[a, far, a], CaptureSource::Standard);
    assert_eq!(rects, vec![a, far], "a union of 3100x3100 is past 2 million pixels: one capture each");
    assert_eq!(at, vec![0, 1, 0]);
}

#[test]
fn duplication_members_go_in_one_request() {
    let a = Rect::new(0, 0, 10, 10);
    let b = Rect::new(20, 0, 10, 10);
    let (rects, at) = plan_round(&[a, b, a], DUP);
    assert_eq!(rects, vec![a, b], "each distinct region a piece of one request");
    assert_eq!(at, vec![0, 1, 0]);
    let mut lane = one_display();
    let mut d1 = req(1, A, a, SnapKind::Plain, T0);
    d1.source = DUP;
    let mut d2 = req(2, A, b, SnapKind::Plain, T0);
    d2.source = DUP;
    lane.submit(d1);
    lane.submit(req(3, A, a, SnapKind::Plain, T0 + 1));
    lane.submit(d2);
    let round = lane.take(T0 + 1).unwrap();
    assert_eq!(round.source, DUP);
    assert_eq!(round.ids(), vec![1, 2]);
    assert_eq!(round.rects, vec![a, b]);
}

#[test]
fn at_in_the_past_is_immediate() {
    let mut lane = one_display();
    lane.submit(req(1, A, Rect::new(0, 0, 10, 10), SnapKind::At(T0), T0 + 30));
    assert!(lane.candidate(T0 + 30).is_some());
}

#[test]
fn expedite_makes_plain_urgent() {
    let r = Rect::new(0, 0, 10, 10);
    let mut lane = one_display();
    lane.submit(req(1, A, r, SnapKind::Plain, T0));
    assert_eq!(lane.candidate(T0).unwrap().class, Class::Background);
    assert!(!lane.expedite(B.idx));
    assert!(lane.expedite(A.idx));
    assert_eq!(lane.candidate(T0).unwrap().class, Class::Urgent);
    let mut lane = one_display();
    lane.submit(req(1, A, r, SnapKind::At(T0), T0));
    assert!(!lane.expedite(A.idx), "a timed one is never hurried: it does not hold input");
}

#[test]
fn choose_orders_classes_then_due() {
    let c = |class, ms: u64| Some(Cand { class, due: T0 + ms });
    assert_eq!(choose_queue(None, None), None);
    assert_eq!(choose_queue(c(Class::Background, 0), None), Some(Pick::Ocr));
    assert_eq!(choose_queue(None, c(Class::Background, 0)), Some(Pick::Snap));
    assert_eq!(choose_queue(c(Class::Interactive, 0), c(Class::Urgent, 9)), Some(Pick::Snap), "the lower class");
    assert_eq!(choose_queue(c(Class::Aged, 9), c(Class::Interactive, 0)), Some(Pick::Ocr));
    assert_eq!(choose_queue(c(Class::Interactive, 5), c(Class::Interactive, 3)), Some(Pick::Snap), "due longer");
    assert_eq!(choose_queue(c(Class::Interactive, 3), c(Class::Interactive, 3)), Some(Pick::Ocr), "a tie: the text read");
}

#[test]
fn group_cuts_contained_regions_and_unions_up_to_the_limit() {
    let big = Rect::new(0, 0, 1000, 1000);
    let inside = Rect::new(10, 10, 20, 20);
    let far = Rect::new(3000, 0, 10, 10);
    assert_eq!(group(&[inside, big, inside], 0), (vec![inside, big], vec![0, 1, 0]), "a region planned before its container is its own piece");
    assert_eq!(group(&[big, inside, far], 0), (vec![big, far], vec![0, 0, 1]), "inside a planned piece: cut from it");
    assert_eq!(group(&[big, inside, far], UNION_MAX), (vec![big, far], vec![0, 0, 1]), "3010x1000 is past the limit");
    let near = Rect::new(1000, 0, 500, 100);
    assert_eq!(group(&[big, near], UNION_MAX), (vec![Rect::new(0, 0, 1500, 1000)], vec![0, 0]));
    let empty = Rect::new(5, 5, 0, 4);
    assert_eq!(group(&[big, empty], UNION_MAX), (vec![big, empty], vec![0, 1]), "an empty region is its own and fails alone");
    let huge = Rect::new(0, 0, 3000, 1000);
    assert_eq!(group(&[huge, inside, Rect::new(3000, 0, 10, 10)], UNION_MAX).0.len(), 2);
}

#[test]
fn regions_on_two_displays_are_not_one_capture() {
    fn by_x(x: i32, _: i32) -> u32 {
        if x >= 1000 {
            2
        } else {
            1
        }
    }
    let mut lane = SnapLane::new(by_x);
    let left = Rect::new(900, 0, 50, 50);
    let right = Rect::new(1010, 0, 50, 50);
    lane.submit(req(1, A, left, SnapKind::Plain, T0));
    lane.submit(req(2, A, right, SnapKind::Plain, T0));
    let round = lane.take(T0).unwrap();
    assert_eq!((round.ids(), round.rects.clone()), (vec![1], vec![left]));
    let mut lane = one_display();
    lane.submit(req(1, A, left, SnapKind::Plain, T0));
    lane.submit(req(2, A, right, SnapKind::Plain, T0));
    assert_eq!(lane.take(T0).unwrap().rects, vec![Rect::new(900, 0, 160, 50)], "one display: one union");
}

#[test]
fn holds_input_by_kind() {
    assert!(holds_input(false, false, false), "a plain request");
    assert!(!holds_input(true, false, false), "a timed one never");
    assert!(holds_input(false, true, false), "a wait without a usable from: its first picture is its baseline");
    assert!(!holds_input(false, true, true), "a wait that compares with its from");
    assert!(!holds_input(true, true, false), "a timed wait never");
}

#[test]
fn from_usable_needs_the_watch_and_the_path() {
    let region = Rect::new(100, 100, 40, 30);
    let from = |r: Rect, via| Frame { rect: r, via, input_epoch: 0, taken: 0 };
    let p = Platform::Other;
    let whole = from(region, FrameVia::Gdi);
    assert!(from_usable(&whole, region, &[], p, CaptureSource::Standard));
    let part = from(Rect::new(100, 100, 10, 30), FrameVia::Gdi);
    assert!(!from_usable(&part, region, &[], p, CaptureSource::Standard), "not all of the region");
    assert!(from_usable(&part, region, &[Rect::new(90, 100, 15, 30)], p, CaptureSource::Standard), "the watch cut to the region is inside it");
    assert!(!from_usable(&part, region, &[Rect::new(90, 100, 15, 30), Rect::new(120, 100, 5, 5)], p, CaptureSource::Standard));
    assert!(!from_usable(&whole, region, &[], p, DUP), "taken the standard way, compared through duplication");
    assert!(from_usable(&from(region, FrameVia::Duplication), region, &[], p, DUP));
    assert!(from_usable(&whole, region, &[], Platform::MacOs, DUP), "on macOS the path cannot be told in advance");
}

// Scenarios of this crate's own, with rounds finished by hand.

#[test]
fn a_timed_request_waits_for_its_moment() {
    let r = Rect::new(0, 0, 10, 10);
    let mut lane = one_display();
    lane.submit(req(1, A, r, SnapKind::At(T0 + 80), T0));
    assert!(lane.candidate(T0 + 79).is_none());
    assert_eq!(lane.next_wake(), Some(T0 + 80));
    assert!(lane.take(T0 + 79).is_none());
    let round = lane.take(T0 + 80).unwrap();
    assert_eq!(round.ids(), vec![1]);
    assert_eq!(lane.taking(), 1);
    assert!(lane.barrier_clear(A.idx), "a timed snapshot never holds input");
}

#[test]
fn the_most_urgent_due_request_leads_its_round() {
    let t0 = T0;
    let screen = Rect::new(0, 0, 2560, 1440);
    let inside = Rect::new(100, 100, 30, 30);
    let beside = Rect::new(3000, 0, 30, 30);
    let mut lane = one_display();
    lane.submit(req(1, B, inside, SnapKind::Plain, t0));
    lane.submit(req(2, B, beside, SnapKind::Plain, t0));
    let mut first = req(3, A, screen, SnapKind::Plain, t0);
    first.ticket.prio = Priority::Interactive;
    lane.submit(first);
    let round = lane.take(t0).unwrap();
    assert_eq!(round.ids(), vec![3, 1], "the interactive one first, then what lies inside it");
    assert_eq!(round.rects, vec![screen]);
    assert!(!lane.barrier_clear(A.idx), "being taken holds its module's input");
    assert_eq!(lane.len(), 3);
}

#[test]
fn a_cancelled_request_is_swept_before_it_is_photographed() {
    let mut lane = one_display();
    let p = req(7, A, Rect::new(0, 0, 10, 10), SnapKind::Plain, T0);
    let flag = p.cancel.clone();
    lane.submit(p);
    flag.store(true, std::sync::atomic::Ordering::Release);
    assert!(lane.candidate(T0).is_none(), "a cancelled request is not due");
    let done = lane.sweep_cancelled(T0 + 5);
    assert_eq!(done.len(), 1);
    assert_eq!((done[0].id, done[0].asked, done[0].ended), (7, T0, T0 + 5));
    assert!(lane.is_empty());
}

#[test]
fn a_finished_round_answers_what_ended_and_queues_the_waits_again() {
    let r = Rect::new(0, 0, 10, 10);
    let mut lane = one_display();
    let mut w = req(2, A, r, SnapKind::Change { start: T0, deadline: T0 + 500 }, T0);
    w.holds = true;
    lane.submit(w);
    let round = lane.take(T0).unwrap();
    assert!(!lane.barrier_clear(A.idx));
    let (req2, _) = round.members.into_iter().next().unwrap();
    let plain_flag = Arc::new(AtomicBool::new(false));
    let done = RoundDone {
        steps: vec![
            Step::Done { id: 9, asked: T0, outcome: SnapOutcome::Cancelled, cancel: plain_flag.clone() },
            Step::Again(req2),
        ],
        source: CaptureSource::Standard,
        started: T0,
        panics: Vec::new(),
    };
    let out = lane.finish(done, T0 + 3, Platform::Other);
    assert_eq!(out.len(), 1);
    assert_eq!((out[0].id, out[0].ended), (9, T0 + 3));
    assert_eq!(lane.taking(), 0);
    assert_eq!(lane.len(), 1, "the wait goes on");
    assert!(lane.barrier_clear(A.idx), "its later rounds do not hold");
    let gap = min_round(Platform::Other, CaptureSource::Standard);
    assert_eq!(lane.next_wake(), Some(T0 + gap), "one minimum round after its round started");
}

#[test]
fn a_submitted_request_wakes_the_lane_by_its_due() {
    let r = Rect::new(0, 0, 10, 10);
    let mut lane = one_display();
    assert_eq!(lane.next_wake(), None);
    lane.submit(req(1, A, r, SnapKind::At(T0 + 80), T0));
    assert_eq!(lane.next_wake(), Some(T0 + 80));
    lane.submit(req(2, A, r, SnapKind::At(T0 + 200), T0));
    assert_eq!(lane.next_wake(), Some(T0 + 80), "a later one does not delay the wake");
    lane.submit(req(3, A, r, SnapKind::Plain, T0 + 5));
    assert_eq!(lane.next_wake(), Some(T0 + 5), "an earlier one brings it forward");
}

#[test]
fn a_round_matches_its_pictures_to_its_captures() {
    let a = Rect::new(0, 0, 10, 10);
    let b = Rect::new(20, 0, 10, 10);
    let c = Rect::new(40, 0, 10, 10);
    let pic = |r: Rect| Frame { rect: r, via: FrameVia::Gdi, input_epoch: 0, taken: 5 };
    let frames = vec![Ok(pic(Rect::new(0, 0, 20, 20))), Ok(pic(Rect::new(20, 0, 5, 5)))];
    let shots = round_shots(&vec![a, b, c], frames, 7, "the capture failed");
    assert_eq!(shots[0], Ok(Frame { rect: Rect::new(0, 0, 20, 20), via: FrameVia::Gdi, input_epoch: 7, taken: 5 }));
    assert_eq!(shots[1], Err("the capture failed".to_string()), "it does not cover its rectangle");
    assert_eq!(shots[2], Err("the capture failed".to_string()), "it is missing");
    let failed = round_shots(&vec![a], vec![Err("no screen".to_string())], 7, "the capture failed");
    assert_eq!(failed, vec![Err("no screen".to_string())]);
}
