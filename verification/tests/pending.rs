use std::cell::Cell;
use std::collections::HashMap;
use std::rc::Rc;
use std::sync::atomic::{AtomicBool, Ordering};
use std::sync::Arc;

use osap_host::sched::Owner;
use osap_host::snap_queue::{ChangeInfo, Frame, FrameVia, SnapDone, SnapId, SnapOutcome};
use osap_host::snapshot::pending::{Answer, PendingSnap, SnapLimits, SnapState, SUPERSEDED};
use osap_host::snapshot::{reservation_for, CANCELLED};
use osap_host::snap_queue::Platform;
use osap_host::types::{Priority, Rect};

const A: Owner = Owner { idx: 1, gen: 1 };
const LIMITS: SnapLimits = SnapLimits { per_owner: 16, waits_per_owner: 4, waits: 32, total: 256 };
const SNAP_PER_OWNER: usize = 16;
const SNAP_WAITS_PER_OWNER: usize = 4;
const SNAP_WAITS: usize = 32;
const SNAP_TOTAL: usize = 256;

/// A charge against the application's budget, given back when it is let go.
struct Charge {
    process: Rc<Cell<usize>>,
    bytes: usize,
}

impl Drop for Charge {
    fn drop(&mut self) {
        self.process.set(self.process.get() - self.bytes);
    }
}

fn charge(process: &Rc<Cell<usize>>, bytes: usize) -> Charge {
    process.set(process.get() + bytes);
    Charge { process: process.clone(), bytes }
}

type State = SnapState<&'static str, Charge>;

/// A request of `owner` for a small region, taken to the thread; its id and cancel flag.
fn add_charged(st: &mut State, owner: Owner, key: Option<&str>, change: bool, res: Option<Charge>) -> (SnapId, Arc<AtomicBool>) {
    let cancel = Arc::new(AtomicBool::new(false));
    let asked = st.snap_async(
        owner,
        Priority::Background,
        key.map(str::to_string),
        change,
        cancel.clone(),
        0,
        "callback",
        res,
        Ok(Rect::new(0, 0, 10, 10)),
    );
    assert_eq!(asked.taken, Some(Rect::new(0, 0, 10, 10)), "the request goes to the thread");
    (asked.id, cancel)
}

fn add(st: &mut State, owner: Owner, key: Option<&str>, change: bool) -> (SnapId, Arc<AtomicBool>) {
    add_charged(st, owner, key, change, None)
}

fn frame(x: i32, y: i32, w: i32, h: i32) -> Arc<Frame> {
    Arc::new(Frame { rect: Rect::new(x, y, w, h), via: FrameVia::Gdi, input_epoch: 0, taken: 0 })
}

fn done(id: SnapId, outcome: SnapOutcome) -> SnapDone {
    SnapDone { id, outcome, asked: 0, ended: 0 }
}

fn pic(id: SnapId) -> SnapDone {
    done(id, SnapOutcome::Picture { frame: frame(0, 0, 4, 4), frames: 2, change: None })
}

/// Every answer due now, delivered to a VM that is still there, in order.
fn deliver_all(st: &mut State, done: Vec<SnapDone>, now: u64) -> Vec<(SnapId, Answer)> {
    let answers = st.take_answers(done, now);
    let mut out = Vec::new();
    for (p, a) in answers {
        let (p, a) = st.deliver(p, a, true);
        out.push((p.id, a.expect("a live VM is called")));
    }
    out
}

fn why(a: &Answer) -> Option<&str> {
    match a {
        Answer::Failed { why, .. } => Some(why.as_str()),
        Answer::Picture { .. } => None,
    }
}

#[test]
fn callback_gets_snap_why_info() {
    let mut st = State::new(LIMITS);
    let (a, _) = add(&mut st, A, None, false);
    let (b, _) = add(&mut st, A, None, true);
    let f = Arc::new(Frame { rect: Rect::new(10, 20, 30, 40), via: FrameVia::Gdi, input_epoch: 3, taken: 7 });
    let rebased = ChangeInfo { changed: false, settled: false, rebased: true };
    let got = deliver_all(
        &mut st,
        vec![
            done(a, SnapOutcome::Picture { frame: f.clone(), frames: 1, change: None }),
            done(b, SnapOutcome::Failed { why: "screen capture failed".into(), frames: 3, change: Some(rebased) }),
        ],
        9,
    );
    assert_eq!(got.len(), 2);
    match &got[0].1 {
        Answer::Picture { frame, frames, change, waited } => {
            assert_eq!((frame.rect.w, frame.rect.x, frame.input_epoch), (30, 10, 3));
            assert_eq!((*frames, *change), (1, None));
            assert_eq!(*waited, 7, "from the asking to the picture");
        }
        _ => panic!("the first request has no picture"),
    }
    match &got[1].1 {
        Answer::Failed { why, frames, change, .. } => {
            assert_eq!(why, "screen capture failed");
            assert_eq!(*frames, 3);
            assert_eq!(*change, Some(rebased));
        }
        _ => panic!("the second request has a picture"),
    }
    assert!(!st.has_pending());
    let again = deliver_all(&mut st, vec![done(a, SnapOutcome::Picture { frame: f, frames: 1, change: None })], 9);
    assert_eq!(again.len(), 0, "exactly once: an answer for a request already answered is let go");
}

#[test]
fn delivery_dropped_for_disabled_owner_and_stale_gen() {
    let mut st = State::new(LIMITS);
    let process = Rc::new(Cell::new(0));
    let gens: HashMap<usize, u64> = [(1, 5), (2, 9)].into_iter().collect();
    let enabled = [true, true, false];
    let alive = |o: Owner| gens.get(&o.idx) == Some(&o.gen) && enabled.get(o.idx) == Some(&true);
    let live_owner = Owner { idx: 1, gen: 5 };
    let (live, _) = add_charged(&mut st, live_owner, None, false, Some(charge(&process, 400)));
    let (stale, _) = add_charged(&mut st, Owner { idx: 1, gen: 4 }, None, false, Some(charge(&process, 400)));
    let (off, _) = add_charged(&mut st, Owner { idx: 2, gen: 9 }, None, false, Some(charge(&process, 400)));
    let answers = st.take_answers(vec![pic(live), pic(stale), pic(off)], 0);
    let mut called = Vec::new();
    for (p, a) in answers {
        let ok = alive(p.owner);
        let (p, a) = st.deliver(p, a, ok);
        if a.is_some() {
            // The snapshot handle holds the charge for as long as the module keeps it.
            called.push(p);
        }
    }
    assert_eq!(called.len(), 1, "only the enabled VM that asked is called");
    assert_eq!(process.get(), 400, "the dropped ones gave their bytes back");
}

/// A newer request with the same key, from the same VM, answers the older one on the next tick
/// — even one whose picture was already taken — and nothing else.
#[test]
fn key_supersedes_with_a_callback_on_the_next_tick() {
    let mut st = State::new(LIMITS);
    let (old, old_flag) = add(&mut st, A, Some("press"), true);
    let (_, other_key) = add(&mut st, A, Some("bubble"), true);
    let (_, other_vm) = add(&mut st, Owner { idx: 1, gen: 6 }, Some("press"), true);
    assert_eq!(st.supersede(A, "press"), 1);
    assert!(old_flag.load(Ordering::Acquire), "the thread is told to stop photographing it");
    assert!(!other_key.load(Ordering::Acquire) && !other_vm.load(Ordering::Acquire));
    let late = done(old, SnapOutcome::Picture { frame: frame(0, 0, 4, 4), frames: 2, change: None });
    let got = deliver_all(&mut st, vec![late], 0);
    assert_eq!(got.len(), 1);
    match &got[0].1 {
        Answer::Failed { why, change, .. } => {
            assert_eq!(why, "a newer request with the same key replaced this one");
            assert_eq!(change.map(|c| c.changed), Some(false));
        }
        _ => panic!("answered once, superseded — the picture that came late is let go"),
    }
}

/// A request a newer one with its key ended, or a limit ended, gives its bytes back at once —
/// before its answer is delivered.
#[test]
fn an_ended_request_gives_its_bytes_back_at_once() {
    let mut st = State::new(LIMITS);
    let process = Rc::new(Cell::new(0));
    let r = Rect::new(0, 0, 100, 50);
    let bytes = reservation_for(r, true, Platform::Other);
    let (_old, _) = add_charged(&mut st, A, Some("press"), true, Some(charge(&process, bytes)));
    let charged = process.get();
    assert!(charged > 0);
    assert_eq!(st.supersede(A, "press"), 1);
    assert_eq!(process.get(), 0, "given back before any delivery");
    let got = deliver_all(&mut st, Vec::new(), 0);
    assert_eq!(got.len(), 1, "and still answered once");
    // The same for the oldest request a module's limit ends.
    add_charged(&mut st, A, None, true, Some(charge(&process, 4000)));
    for _ in 1..SNAP_WAITS_PER_OWNER {
        add(&mut st, A, None, true);
    }
    assert_eq!(process.get(), 4000);
    st.make_room(A, true);
    assert_eq!(process.get(), 0);
}

/// A newer request with a key, made by a callback earlier in the same delivery batch, replaces
/// an older answer with that key still waiting in the batch.
#[test]
fn a_newer_key_made_in_the_same_batch_replaces_the_older_answer() {
    let mut st = State::new(LIMITS);
    let (x, _) = add(&mut st, A, None, false);
    let (w1, _) = add(&mut st, A, Some("k"), true);
    let (other_vm, _) = add(&mut st, Owner { idx: 1, gen: 6 }, Some("k"), false);
    let answers = st.take_answers(vec![pic(x), pic(w1), pic(other_vm)], 0);
    // X's callback asks again with the key: a request of W1's module VM, newer than W1.
    let (newer, _) = add(&mut st, A, Some("k"), true);
    let mut got = Vec::new();
    for (p, a) in answers {
        let (_, a) = st.deliver(p, a, true);
        got.push(a.expect("called"));
    }
    assert_eq!(got.len(), 3);
    assert!(matches!(got[0], Answer::Picture { .. }));
    assert_eq!(why(&got[1]), Some(SUPERSEDED), "W1 superseded");
    assert!(matches!(got[2], Answer::Picture { .. }), "another VM's key untouched");
    assert_eq!(st.newest_keys().len(), 1, "only the waiting newest is remembered");
    assert!(st.newest_keys().iter().all(|id| *id == newer));
    let _gone: Vec<PendingSnap<&'static str, Charge>> = st.drop_owner(A.idx);
    assert!(st.newest_keys().is_empty(), "a dropped module's keys are forgotten");
}

#[test]
fn owner_caps_end_the_oldest() {
    let mut st = State::new(LIMITS);
    let waits: Vec<Arc<AtomicBool>> = (0..SNAP_WAITS_PER_OWNER).map(|_| add(&mut st, A, None, true).1).collect();
    let (ended, refused) = st.make_room(A, true);
    assert_eq!((ended, refused), (vec![LIMITS.owner_waits_ended()], None));
    assert!(waits[0].load(Ordering::Acquire) && !waits[1].load(Ordering::Acquire), "the oldest wait");
    let (ended, _) = st.make_room(A, false);
    assert!(ended.is_empty(), "a plain request does not count against the waits");
    let more = SNAP_PER_OWNER - (SNAP_WAITS_PER_OWNER - 1);
    for _ in 0..more {
        add(&mut st, A, None, false);
    }
    let (ended, refused) = st.make_room(A, false);
    assert_eq!((ended, refused), (vec![LIMITS.owner_requests_ended()], None));
    assert!(waits[1].load(Ordering::Acquire), "the oldest request of any kind");
    let (ended, _) = st.make_room(Owner { idx: 2, gen: 1 }, true);
    assert!(ended.is_empty(), "another module's share is its own");
}

#[test]
fn process_busy_answers_without_raising() {
    let mut st = State::new(LIMITS);
    for i in 0..SNAP_WAITS {
        add(&mut st, Owner { idx: 10 + i / 2, gen: 1 }, None, true);
    }
    let newcomer = Owner { idx: 99, gen: 1 };
    assert_eq!(st.make_room(newcomer, true), (Vec::new(), Some(LIMITS.all_waits_refused())));
    assert_eq!(st.make_room(newcomer, false), (Vec::new(), None), "a plain one still fits");
    for i in 0..(SNAP_TOTAL - SNAP_WAITS) {
        add(&mut st, Owner { idx: 30 + i / 8, gen: 1 }, None, false);
    }
    assert_eq!(st.make_room(newcomer, false), (Vec::new(), Some(LIMITS.all_requests_refused())));
}

/// A request the application's limit refuses ends nothing of its module's: counted with the
/// slots the module's own ends would free, and when it is refused all the same, the module keeps
/// its oldest.
#[test]
fn a_refused_request_ends_nothing_of_its_module() {
    let mut st = State::new(LIMITS);
    // The module holds its 16, none a wait; the other modules every wait slot.
    let mine: Vec<Arc<AtomicBool>> = (0..SNAP_PER_OWNER).map(|_| add(&mut st, A, None, false).1).collect();
    for i in 0..SNAP_WAITS {
        add(&mut st, Owner { idx: 10 + i / 2, gen: 1 }, None, true);
    }
    assert_eq!(st.make_room(A, true), (Vec::new(), Some(LIMITS.all_waits_refused())), "no wait slot comes free");
    assert!(mine.iter().all(|f| !f.load(Ordering::Acquire)), "and nothing of the module's was ended for it");
    // A plain one takes the slot its module's oldest frees.
    assert_eq!(st.make_room(A, false), (vec![LIMITS.owner_requests_ended()], None));
    assert!(mine[0].load(Ordering::Acquire));
    // The application full: the module's own end would free one slot, which is enough.
    let mut st = State::new(LIMITS);
    let mine: Vec<Arc<AtomicBool>> = (0..SNAP_PER_OWNER).map(|_| add(&mut st, A, None, false).1).collect();
    for i in 0..(SNAP_TOTAL - SNAP_PER_OWNER) {
        add(&mut st, Owner { idx: 30 + i / 8, gen: 1 }, None, false);
    }
    assert_eq!(st.make_room(A, false), (vec![LIMITS.owner_requests_ended()], None), "its own end makes the room");
    assert!(mine[0].load(Ordering::Acquire));
    // Its oldest wait ended frees a wait slot, counted before refusing.
    let mut st = State::new(LIMITS);
    let waits: Vec<Arc<AtomicBool>> = (0..SNAP_WAITS_PER_OWNER).map(|_| add(&mut st, A, None, true).1).collect();
    for i in 0..(SNAP_WAITS - SNAP_WAITS_PER_OWNER) {
        add(&mut st, Owner { idx: 10 + i / 2, gen: 1 }, None, true);
    }
    assert_eq!(st.make_room(A, true), (vec![LIMITS.owner_waits_ended()], None));
    assert!(waits[0].load(Ordering::Acquire));
}

#[test]
fn dropping_a_module_cancels_its_requests_and_answers_none() {
    let mut st = State::new(LIMITS);
    let (mine, _) = add(&mut st, A, Some("k"), false);
    add(&mut st, A, Some("k"), false);
    add(&mut st, Owner { idx: 4, gen: 1 }, None, false);
    st.supersede(A, "k"); // both of A's now answered on the next tick
    let (_, fresh) = add(&mut st, A, None, false);
    assert_eq!(st.owners_from(2), vec![4]);
    let gone = st.drop_owner(A.idx);
    assert_eq!(gone.len(), 3, "the waiting one and the two answers not delivered yet");
    assert!(fresh.load(Ordering::Acquire));
    assert!(!st.has_pending_for(A.idx) && st.has_pending_for(4));
    let got = deliver_all(&mut st, vec![done(mine, SnapOutcome::Cancelled)], 0);
    assert_eq!(got.len(), 0, "nothing of A's is called");
    assert!(st.has_pending(), "B's still waits");
}

// The library's own cases.

#[test]
fn a_region_with_a_reason_is_answered_on_the_next_tick() {
    let mut st = State::new(LIMITS);
    let asked = st.snap_async(
        A,
        Priority::Interactive,
        None,
        false,
        Arc::new(AtomicBool::new(false)),
        5,
        "callback",
        None,
        Err("the window's client area is empty (0x0)".to_string()),
    );
    assert_eq!((asked.id, asked.taken, asked.ended), (1, None, 0));
    assert!(!st.has_pending_for(A.idx), "nothing goes to the thread");
    let got = deliver_all(&mut st, Vec::new(), 12);
    assert_eq!(got.len(), 1);
    match &got[0].1 {
        Answer::Failed { why, frames, change, waited } => {
            assert_eq!(why, "the window's client area is empty (0x0)");
            assert_eq!((*frames, *change, *waited), (0, None, 7));
        }
        _ => panic!("a picture out of nothing"),
    }
}

#[test]
fn a_refused_request_gives_its_charge_back_and_is_answered() {
    let limits = SnapLimits { per_owner: 16, waits_per_owner: 4, waits: 1, total: 256 };
    let mut st = State::new(limits);
    let process = Rc::new(Cell::new(0));
    add(&mut st, Owner { idx: 2, gen: 1 }, None, true);
    let asked = st.snap_async(
        A,
        Priority::Background,
        Some("k".to_string()),
        true,
        Arc::new(AtomicBool::new(false)),
        0,
        "callback",
        Some(charge(&process, 300)),
        Ok(Rect::new(0, 0, 10, 10)),
    );
    assert_eq!((asked.id, asked.taken, asked.ended), (2, None, 0));
    assert_eq!(process.get(), 0, "no picture comes, so its charge goes back now");
    assert_eq!(st.newest_keys(), vec![2], "the newest with its key even though it was not taken");
    let got = deliver_all(&mut st, Vec::new(), 0);
    assert_eq!(got.len(), 1);
    assert_eq!(why(&got[0].1), Some("too many change waits in the whole application (1); this one was not started"));
    assert!(st.newest_keys().is_empty(), "delivered, its key is forgotten");
}

#[test]
fn a_cancelled_answer_tells_why() {
    let mut st = State::new(LIMITS);
    let (w, _) = add(&mut st, A, None, true);
    let got = deliver_all(&mut st, vec![SnapDone { id: w, outcome: SnapOutcome::Cancelled, asked: 3, ended: 10 }], 10);
    assert_eq!(got.len(), 1);
    match &got[0].1 {
        Answer::Failed { why, frames, change, waited } => {
            assert_eq!(why, CANCELLED);
            assert_eq!((*frames, *waited), (0, 7));
            assert_eq!(*change, Some(ChangeInfo { changed: false, settled: false, rebased: false }));
        }
        _ => panic!("a cancelled request has no picture"),
    }
}

#[test]
fn the_limits_name_their_numbers() {
    assert_eq!(LIMITS.owner_waits_ended(), "too many change waits for this module (4); the oldest was ended");
    assert_eq!(
        LIMITS.owner_requests_ended(),
        "too many snapshot requests waiting for this module (16); the oldest was ended"
    );
    assert_eq!(
        LIMITS.all_requests_refused(),
        "too many snapshot requests waiting in the whole application (256); this one was not taken"
    );
}

#[test]
fn owners_are_listed_once_in_order() {
    let mut st = State::new(LIMITS);
    for idx in [7, 3, 7, 1, 5] {
        add(&mut st, Owner { idx, gen: 1 }, None, false);
    }
    assert_eq!(st.owners_from(3), vec![3, 5, 7]);
    assert_eq!(st.owners_from(8), Vec::<usize>::new());
}
