//! The snapshot lane of the capture thread: which of `host.screen.snapshotAsync`'s requests
//! are photographed next, in which captures, and what each is answered, with no thread and no
//! clock of its own (times are milliseconds handed in by the caller).
//!
//! The pictures of `host.ocr.read` and of the snapshot lane are weighed against each other by
//! one rule: the class (urgent, aged, interactive, background), then whichever has been due
//! longer, and on a tie the text read ([`choose_queue`]).
//!
//! A round is the most urgent due request and the others that can share its picture
//! ([`SnapLane::take`]): through the standard path every due request whose region lies inside
//! the round's rectangle, or whose union with it covers at most `UNION_MAX` pixels on the same
//! display, in order of urgency; through desktop duplication every due request of that source.
use std::sync::atomic::{AtomicBool, Ordering};
use std::sync::Arc;

use vstd::prelude::*;

use crate::policy::{AGING_MS, MIN_ROUND_DUPLICATION_MS, MIN_ROUND_MACOS_MS, MIN_ROUND_STANDARD_MS, UNION_MAX};
use crate::sched::{class_order, class_rank, Cand, Class, Owner};
use crate::types::{empty_rect, rect_area, rect_contains, rect_intersect, rect_union, Priority, Rect};

verus! {

pub type SnapId = u64;

/// Whose request it is, and in which lane it waits.
#[derive(Clone, Copy, Debug, PartialEq, Eq, Structural)]
pub struct SnapTicket {
    pub id: SnapId,
    pub owner: Owner,
    pub prio: Priority,
}

/// The way a capture is taken: the standard path, or desktop duplication (falling back to the
/// standard path when `or_standard`).
#[derive(Clone, Copy, Debug, PartialEq, Eq, Structural)]
pub enum CaptureSource {
    Standard,
    Duplication { or_standard: bool },
}

/// How a picture was taken.
#[derive(Clone, Copy, Debug, PartialEq, Eq, Structural)]
pub enum FrameVia {
    Gdi,
    Duplication,
}

/// The platform the host runs on, where the rules differ by it.
#[derive(Clone, Copy, Debug, PartialEq, Eq, Structural)]
pub enum Platform {
    MacOs,
    Other,
}

/// A picture as the lane's rules read it: the screen rectangle it holds, how it was taken, the
/// input epoch it predates, and when it was taken (milliseconds).
#[derive(Clone, Copy, Debug, PartialEq, Eq, Structural)]
pub struct Frame {
    pub rect: Rect,
    pub via: FrameVia,
    pub input_epoch: u64,
    pub taken: u64,
}

/// What kind of request it is.
#[derive(Clone, Copy, Debug, PartialEq, Eq, Structural)]
pub enum SnapKind {
    /// One picture, as soon as the thread can take it.
    Plain,
    /// One picture, not taken before this moment.
    At(u64),
    /// Pictures from `start` on, one per round, until the wait ends at `deadline` at the latest.
    Change { start: u64, deadline: u64 },
}

/// One request, as the event loop hands it to the thread.
pub struct SnapReq {
    pub ticket: SnapTicket,
    /// Screen coordinates: what the answer is a picture of.
    pub region: Rect,
    pub source: CaptureSource,
    pub kind: SnapKind,
    pub asked: u64,
    /// Holds the owner's input until its first picture is taken.
    pub holds: bool,
    /// Set by the event loop when nobody waits for the answer any more.
    pub cancel: Arc<AtomicBool>,
}

/// When a request is first due: at once for a plain one, at its moment for a timed one, at its
/// start for a change wait.
pub open spec fn first_due(kind: SnapKind, asked: u64) -> u64 {
    match kind {
        SnapKind::Plain => asked,
        SnapKind::At(t) => t,
        SnapKind::Change { start, .. } => start,
    }
}

pub open spec fn is_wait(kind: SnapKind) -> bool {
    kind is Change
}

/// How a change wait ended, beside its picture.
#[derive(Clone, Copy, Debug, Default, PartialEq, Eq, Structural)]
pub struct ChangeInfo {
    pub changed: bool,
    pub settled: bool,
    pub rebased: bool,
}

pub enum SnapOutcome {
    /// Of exactly the request's region; `frames` pictures were taken for it.
    Picture { frame: Arc<Frame>, frames: u32, change: Option<ChangeInfo> },
    Failed { why: String, frames: u32, change: Option<ChangeInfo> },
    /// Its flag was set: the event loop answers or drops it itself.
    Cancelled,
}

/// A request's one answer.
pub struct SnapDone {
    pub id: SnapId,
    pub outcome: SnapOutcome,
    pub asked: u64,
    /// When the thread answered it.
    pub ended: u64,
}

/// What a request is answered when the host's own code for its round panicked.
pub const ROUND_FAILED: &'static str = "the snapshot failed inside the application; the log has the details";

/// The least time (milliseconds) between the starts of two rounds of a change wait through
/// `source`, decided by the platform.
pub open spec fn min_round_ms(platform: Platform, source: CaptureSource) -> u64 {
    if platform == Platform::MacOs {
        MIN_ROUND_MACOS_MS
    } else {
        match source {
            CaptureSource::Standard => MIN_ROUND_STANDARD_MS,
            CaptureSource::Duplication { .. } => MIN_ROUND_DUPLICATION_MS,
        }
    }
}

pub fn min_round(platform: Platform, source: CaptureSource) -> (ms: u64)
    ensures
        ms == min_round_ms(platform, source),
{
    if platform == Platform::MacOs {
        return MIN_ROUND_MACOS_MS;
    }
    match source {
        CaptureSource::Standard => MIN_ROUND_STANDARD_MS,
        CaptureSource::Duplication { .. } => MIN_ROUND_DUPLICATION_MS,
    }
}

/// Which queue the capture thread serves next.
#[derive(Clone, Copy, Debug, PartialEq, Eq, Structural)]
pub enum Pick {
    Ocr,
    Snap,
}

/// Whether candidate `a` goes before `b`: the lower class, then the one due longer.
pub open spec fn cand_before(a: Cand, b: Cand) -> bool {
    class_rank(a.class) < class_rank(b.class) || (class_rank(a.class) == class_rank(b.class)
        && a.due < b.due)
}

pub open spec fn choice(ocr: Option<Cand>, lane: Option<Cand>) -> Option<Pick> {
    match (ocr, lane) {
        (None, None) => None,
        (Some(_), None) => Some(Pick::Ocr),
        (None, Some(_)) => Some(Pick::Snap),
        (Some(o), Some(l)) => Some(
            if cand_before(l, o) {
                Pick::Snap
            } else {
                Pick::Ocr
            },
        ),
    }
}

/// The lower class first, then the one due longer; on a tie the text read.
pub fn choose_queue(ocr: Option<Cand>, lane: Option<Cand>) -> (r: Option<Pick>)
    ensures
        r == choice(ocr, lane),
{
    match (ocr, lane) {
        (None, None) => None,
        (Some(_), None) => Some(Pick::Ocr),
        (None, Some(_)) => Some(Pick::Snap),
        (Some(o), Some(l)) => {
            let (lc, oc) = (class_order(l.class), class_order(o.class));
            Some(
                if lc < oc || (lc == oc && l.due < o.due) {
                    Pick::Snap
                } else {
                    Pick::Ocr
                },
            )
        },
    }
}

/// The first capture planned already that holds `r`.
pub open spec fn first_containing(rects: Seq<Rect>, r: Rect) -> Option<int>
    decreases rects.len(),
{
    if rects.len() == 0 {
        None
    } else {
        match first_containing(rects.drop_last(), r) {
            Some(i) => Some(i),
            None => if rect_contains(rects.last(), r) {
                Some(rects.len() - 1)
            } else {
                None
            },
        }
    }
}

/// The first non-empty capture planned already whose union with `r` covers at most `max`
/// pixels.
pub open spec fn first_mergeable(rects: Seq<Rect>, r: Rect, max: i64) -> Option<int>
    decreases rects.len(),
{
    if rects.len() == 0 {
        None
    } else {
        match first_mergeable(rects.drop_last(), r, max) {
            Some(i) => Some(i),
            None => if !empty_rect(rects.last()) && rect_area(rect_union(rects.last(), r)) <= max {
                Some(rects.len() - 1)
            } else {
                None
            },
        }
    }
}

/// One more region into a plan: cut from a capture that holds it; else, with `max` above 0,
/// grown into the first capture whose union with it stays within `max`; else a capture of its
/// own. An empty region is always one of its own.
pub open spec fn group_step(st: (Seq<Rect>, Seq<usize>), r: Rect, max: i64) -> (Seq<Rect>, Seq<usize>) {
    let rects = st.0;
    let at = st.1;
    if !empty_rect(r) && first_containing(rects, r) is Some {
        (rects, at.push(first_containing(rects, r).unwrap() as usize))
    } else if !empty_rect(r) && max > 0 && first_mergeable(rects, r, max) is Some {
        let i = first_mergeable(rects, r, max).unwrap();
        (rects.update(i, rect_union(rects[i], r)), at.push(i as usize))
    } else {
        (rects.push(r), at.push(rects.len() as usize))
    }
}

/// `regions` as few captures as `max` allows, in order, and which capture each is cut from.
pub open spec fn group_model(regions: Seq<Rect>, max: i64) -> (Seq<Rect>, Seq<usize>)
    decreases regions.len(),
{
    if regions.len() == 0 {
        (Seq::empty(), Seq::empty())
    } else {
        group_step(group_model(regions.drop_last(), max), regions.last(), max)
    }
}

/// An empty region is a capture of its own, which nothing later grows; with no union allowed
/// (`max` of 0 or less), every capture is one of the regions.
proof fn lemma_group_pieces(regions: Seq<Rect>, max: i64)
    requires
        regions.len() <= usize::MAX,
    ensures
        forall|k: int|
            0 <= k < regions.len() && empty_rect(regions[k]) ==> (#[trigger] group_model(regions, max).1[k]) < group_model(
                regions,
                max,
            ).0.len() && group_model(regions, max).0[group_model(regions, max).1[k] as int] == regions[k],
        max <= 0 ==> forall|j: int|
            0 <= j < group_model(regions, max).0.len() ==> exists|k: int|
                0 <= k < regions.len() && #[trigger] group_model(regions, max).0[j] == regions[k],
        forall|j: int|
            0 <= j < group_model(regions, max).0.len() ==> rect_area(#[trigger] group_model(regions, max).0[j]) <= max
                || exists|k: int| 0 <= k < regions.len() && group_model(regions, max).0[j] == regions[k],
    decreases regions.len(),
{
    lemma_group_len(regions, max);
    if regions.len() > 0 {
        let pre = regions.drop_last();
        let r = regions.last();
        lemma_group_pieces(pre, max);
        lemma_group_len(pre, max);
        let st = group_model(pre, max);
        let now = group_model(regions, max);
        lemma_first_mergeable(st.0, r, max);
        lemma_first_containing(st.0, r);
        assert forall|k: int|
            0 <= k < regions.len() && empty_rect(regions[k]) implies (#[trigger] now.1[k]) < now.0.len()
            && now.0[now.1[k] as int] == regions[k] by {
            if k < regions.len() - 1 {
                assert(regions[k] == pre[k]);
                assert(now.1[k] == st.1[k]);
                if !empty_rect(r) && first_containing(st.0, r) is None && max > 0 && first_mergeable(st.0, r, max) is Some {
                    let i = first_mergeable(st.0, r, max).unwrap();
                    assert(i != st.1[k] as int);
                }
            }
        }
        assert forall|j: int| 0 <= j < now.0.len() implies rect_area(#[trigger] now.0[j]) <= max || exists|k: int|
            0 <= k < regions.len() && now.0[j] == regions[k] by {
            if j < st.0.len() && now.0[j] == st.0[j] {
                if rect_area(st.0[j]) > max {
                    let k = choose|k: int| 0 <= k < pre.len() && st.0[j] == pre[k];
                    assert(now.0[j] == regions[k]);
                }
            } else if j >= st.0.len() {
                assert(now.0[j] == regions[regions.len() - 1]);
            }
        }
        if max <= 0 {
            assert forall|j: int| 0 <= j < now.0.len() implies exists|k: int|
                0 <= k < regions.len() && #[trigger] now.0[j] == regions[k] by {
                if j < st.0.len() {
                    let k = choose|k: int| 0 <= k < pre.len() && #[trigger] st.0[j] == pre[k];
                    assert(now.0[j] == regions[k]);
                } else {
                    assert(now.0[j] == regions[regions.len() - 1]);
                }
            }
        }
    }
}

/// The union limit of a source's rounds: `UNION_MAX` through the standard path, none through
/// desktop duplication.
pub open spec fn union_limit(source: CaptureSource) -> i64 {
    if source == CaptureSource::Standard {
        UNION_MAX
    } else {
        0
    }
}

proof fn lemma_first_containing(rects: Seq<Rect>, r: Rect)
    ensures
        match first_containing(rects, r) {
            Some(i) => 0 <= i < rects.len() && rect_contains(rects[i], r),
            None => true,
        },
    decreases rects.len(),
{
    if rects.len() > 0 {
        lemma_first_containing(rects.drop_last(), r);
    }
}

proof fn lemma_first_mergeable(rects: Seq<Rect>, r: Rect, max: i64)
    ensures
        match first_mergeable(rects, r, max) {
            Some(i) => 0 <= i < rects.len() && !empty_rect(rects[i]) && rect_area(
                rect_union(rects[i], r),
            ) <= max,
            None => true,
        },
    decreases rects.len(),
{
    if rects.len() > 0 {
        lemma_first_mergeable(rects.drop_last(), r, max);
    }
}

/// A rectangle holds itself and everything a rectangle inside it holds.
proof fn lemma_contains_trans(a: Rect, b: Rect, c: Rect)
    requires
        rect_contains(a, b),
        rect_contains(b, c),
    ensures
        rect_contains(a, c),
{
}

/// A union small enough not to be capped holds both of its parts.
proof fn lemma_union_holds(a: Rect, r: Rect, max: i64)
    requires
        !empty_rect(a),
        !empty_rect(r),
        rect_area(rect_union(a, r)) <= max,
        max < i32::MAX,
    ensures
        rect_contains(rect_union(a, r), a),
        rect_contains(rect_union(a, r), r),
{
    let u = rect_union(a, r);
    let x = if a.x <= r.x { a.x as int } else { r.x as int };
    let y = if a.y <= r.y { a.y as int } else { r.y as int };
    let right = if a.x + a.w >= r.x + r.w { a.x + a.w } else { r.x + r.w };
    let bottom = if a.y + a.h >= r.y + r.h { a.y + a.h } else { r.y + r.h };
    assert(right - x >= 1 && bottom - y >= 1);
    if right - x > i32::MAX {
        assert(u.w == i32::MAX);
        assert(u.h >= 1);
        assert(u.w * u.h >= u.w) by (nonlinear_arith)
            requires
                u.w >= 1,
                u.h >= 1,
        ;
    }
    if bottom - y > i32::MAX {
        assert(u.h == i32::MAX);
        assert(u.w >= 1);
        assert(u.w * u.h >= u.h) by (nonlinear_arith)
            requires
                u.w >= 1,
                u.h >= 1,
        ;
    }
}

proof fn lemma_group_len(regions: Seq<Rect>, max: i64)
    ensures
        group_model(regions, max).1.len() == regions.len(),
        group_model(regions, max).0.len() <= regions.len(),
    decreases regions.len(),
{
    if regions.len() > 0 {
        lemma_group_len(regions.drop_last(), max);
        let st = group_model(regions.drop_last(), max);
        lemma_first_mergeable(st.0, regions.last(), max);
    }
}

/// What planning keeps true: every region so far is cut from a capture that holds it (when the
/// limit cannot cap a union).
proof fn lemma_group_holds(regions: Seq<Rect>, max: i64)
    requires
        max < i32::MAX,
        regions.len() <= usize::MAX,
    ensures
        group_model(regions, max).1.len() == regions.len(),
        forall|k: int|
            0 <= k < regions.len() ==> (#[trigger] group_model(regions, max).1[k]) < group_model(
                regions,
                max,
            ).0.len() && rect_contains(
                group_model(regions, max).0[group_model(regions, max).1[k] as int],
                regions[k],
            ),
    decreases regions.len(),
{
    if regions.len() > 0 {
        let d = regions.drop_last();
        lemma_group_holds(d, max);
        lemma_group_len(d, max);
        let st = group_model(d, max);
        let r = regions.last();
        let n = regions.len() - 1;
        lemma_first_containing(st.0, r);
        lemma_first_mergeable(st.0, r, max);
        assert forall|k: int| 0 <= k < n implies #[trigger] d[k] == regions[k] by {}
        let res = group_model(regions, max);
        assert(res == group_step(st, r, max));
        if !empty_rect(r) && first_containing(st.0, r) is Some {
            assert forall|k: int| 0 <= k < regions.len() implies (#[trigger] res.1[k]) < res.0.len()
                && rect_contains(res.0[res.1[k] as int], regions[k]) by {
                if k < n {
                    assert(res.1[k] == st.1[k]);
                }
            }
        } else if !empty_rect(r) && max > 0 && first_mergeable(st.0, r, max) is Some {
            let i = first_mergeable(st.0, r, max).unwrap();
            lemma_union_holds(st.0[i], r, max);
            assert forall|k: int| 0 <= k < regions.len() implies (#[trigger] res.1[k]) < res.0.len()
                && rect_contains(res.0[res.1[k] as int], regions[k]) by {
                if k < n {
                    assert(res.1[k] == st.1[k]);
                    if st.1[k] as int == i {
                        lemma_contains_trans(rect_union(st.0[i], r), st.0[i], regions[k]);
                    }
                }
            }
        } else {
            assert forall|k: int| 0 <= k < regions.len() implies (#[trigger] res.1[k]) < res.0.len()
                && rect_contains(res.0[res.1[k] as int], regions[k]) by {
                if k < n {
                    assert(res.1[k] == st.1[k]);
                }
            }
        }
    }
}

fn position_containing(rects: &Vec<Rect>, r: &Rect) -> (p: Option<usize>)
    ensures
        match first_containing(rects@, *r) {
            Some(i) => p == Some(i as usize) && 0 <= i < rects@.len(),
            None => p is None,
        },
{
    let mut i: usize = 0;
    while i < rects.len()
        invariant
            i <= rects@.len(),
            first_containing(rects@.take(i as int), *r) is None,
        decreases rects@.len() - i,
    {
        proof {
            assert(rects@.take(i + 1).drop_last() =~= rects@.take(i as int));
        }
        if rects[i].contains(r) {
            proof {
                lemma_first_containing_prefix(rects@, *r, i + 1);
            }
            return Some(i);
        }
        i += 1;
    }
    proof {
        assert(rects@.take(i as int) =~= rects@);
    }
    None
}

proof fn lemma_first_containing_prefix(rects: Seq<Rect>, r: Rect, n: int)
    requires
        0 <= n <= rects.len(),
        first_containing(rects.take(n), r) is Some,
    ensures
        first_containing(rects, r) == first_containing(rects.take(n), r),
    decreases rects.len() - n,
{
    if n < rects.len() {
        assert(rects.take(n + 1).drop_last() =~= rects.take(n));
        lemma_first_containing_prefix(rects, r, n + 1);
    } else {
        assert(rects.take(n) =~= rects);
    }
}

proof fn lemma_first_mergeable_prefix(rects: Seq<Rect>, r: Rect, max: i64, n: int)
    requires
        0 <= n <= rects.len(),
        first_mergeable(rects.take(n), r, max) is Some,
    ensures
        first_mergeable(rects, r, max) == first_mergeable(rects.take(n), r, max),
    decreases rects.len() - n,
{
    if n < rects.len() {
        assert(rects.take(n + 1).drop_last() =~= rects.take(n));
        lemma_first_mergeable_prefix(rects, r, max, n + 1);
    } else {
        assert(rects.take(n) =~= rects);
    }
}

fn position_mergeable(rects: &Vec<Rect>, r: &Rect, max: i64) -> (p: Option<usize>)
    ensures
        match first_mergeable(rects@, *r, max) {
            Some(i) => p == Some(i as usize) && 0 <= i < rects@.len(),
            None => p is None,
        },
{
    let mut i: usize = 0;
    while i < rects.len()
        invariant
            i <= rects@.len(),
            first_mergeable(rects@.take(i as int), *r, max) is None,
        decreases rects@.len() - i,
    {
        proof {
            assert(rects@.take(i + 1).drop_last() =~= rects@.take(i as int));
        }
        if !rects[i].is_empty() && rects[i].union(r).area() <= max {
            proof {
                lemma_first_mergeable_prefix(rects@, *r, max, i + 1);
            }
            return Some(i);
        }
        i += 1;
    }
    proof {
        assert(rects@.take(i as int) =~= rects@);
    }
    None
}

/// `regions` as few captures as `max` allows, in order: a region inside a capture planned
/// already is cut from it; otherwise, with `max` above 0, the first capture whose union with it
/// covers at most `max` pixels grows to hold it; otherwise it is a capture of its own. An empty
/// region is always one of its own. Which capture each region is cut from.
pub fn group(regions: &[Rect], max: i64) -> (r: (Vec<Rect>, Vec<usize>))
    ensures
        (r.0@, r.1@) == group_model(regions@, max),
        r.1@.len() == regions@.len(),
        r.0@.len() <= regions@.len(),
        forall|k: int|
            0 <= k < regions@.len() && empty_rect(regions@[k]) ==> (#[trigger] r.1@[k]) < r.0@.len() && r.0@[r.1@[k] as int]
                == regions@[k],
        max <= 0 ==> forall|j: int| 0 <= j < r.0@.len() ==> exists|k: int| 0 <= k < regions@.len() && #[trigger] r.0@[j] == regions@[k],
        forall|j: int|
            0 <= j < r.0@.len() ==> rect_area(#[trigger] r.0@[j]) <= max || exists|k: int| 0 <= k < regions@.len() && r.0@[j] == regions@[k],
        max < i32::MAX ==> forall|k: int|
            0 <= k < regions@.len() ==> (#[trigger] r.1@[k]) < r.0@.len() && rect_contains(
                r.0@[r.1@[k] as int],
                regions@[k],
            ),
{
    let mut rects: Vec<Rect> = Vec::new();
    let mut at: Vec<usize> = Vec::new();
    let mut k: usize = 0;
    while k < regions.len()
        invariant
            k <= regions@.len(),
            (rects@, at@) == group_model(regions@.take(k as int), max),
            rects@.len() <= k,
        decreases regions@.len() - k,
    {
        let r = regions[k];
        proof {
            assert(regions@.take(k + 1).drop_last() =~= regions@.take(k as int));
            assert(regions@.take(k + 1).last() == r);
        }
        let mut placed = false;
        if !r.is_empty() {
            if let Some(i) = position_containing(&rects, &r) {
                at.push(i);
                placed = true;
            } else if max > 0 {
                if let Some(i) = position_mergeable(&rects, &r, max) {
                    let u = rects[i].union(&r);
                    rects.set(i, u);
                    at.push(i);
                    placed = true;
                }
            }
        }
        if !placed {
            rects.push(r);
            at.push(rects.len() - 1);
        }
        k += 1;
    }
    proof {
        assert(regions@.take(k as int) =~= regions@);
        lemma_group_len(regions@, max);
        lemma_group_pieces(regions@, max);
        if max < i32::MAX {
            lemma_group_holds(regions@, max);
        }
    }
    (rects, at)
}

/// The captures that answer `regions` through `source`, and which capture each region is cut
/// from: the standard path unions regions up to `UNION_MAX` pixels a capture; desktop
/// duplication gets every region no other piece holds as a piece of one request.
pub fn plan_round(regions: &[Rect], source: CaptureSource) -> (r: (Vec<Rect>, Vec<usize>))
    ensures
        (r.0@, r.1@) == group_model(regions@, union_limit(source)),
        r.1@.len() == regions@.len(),
        forall|k: int|
            0 <= k < regions@.len() ==> (#[trigger] r.1@[k]) < r.0@.len() && rect_contains(
                r.0@[r.1@[k] as int],
                regions@[k],
            ),
{
    group(regions, if source == CaptureSource::Standard { UNION_MAX } else { 0 })
}

/// Whether a request holds its module's input until its first picture is taken: it is taken at
/// once (not `timed`), and either it is not a change wait, or its baseline will be that first
/// picture.
pub fn holds_input(timed: bool, change: bool, from_usable: bool) -> (r: bool)
    ensures
        r == (!timed && !(change && from_usable)),
{
    !timed && !(change && from_usable)
}

pub open spec fn first_via(platform: Platform, source: CaptureSource) -> Option<FrameVia> {
    if platform == Platform::MacOs {
        None
    } else {
        Some(
            match source {
                CaptureSource::Standard => FrameVia::Gdi,
                CaptureSource::Duplication { .. } => FrameVia::Duplication,
            },
        )
    }
}

/// The way a request through `source` is photographed when nothing falls back, or `None` on
/// macOS, where it cannot be told in advance.
pub fn first_choice_via(platform: Platform, source: CaptureSource) -> (r: Option<FrameVia>)
    ensures
        r == first_via(platform, source),
{
    if platform == Platform::MacOs {
        return None;
    }
    Some(
        match source {
            CaptureSource::Standard => FrameVia::Gdi,
            CaptureSource::Duplication { .. } => FrameVia::Duplication,
        },
    )
}

/// Whether `from` holds watched rectangle `w` cut to `region`.
pub open spec fn from_holds(from: Frame, region: Rect, w: Rect) -> bool {
    match rect_intersect(region, w) {
        Some(c) => rect_contains(from.rect, c),
        None => false,
    }
}

/// Whether a change wait over `region` watching `watch` can compare its first round with
/// `from`: `from` holds every watched rectangle cut to the region (all of the region when
/// nothing is watched), and was taken the way the rounds will be when nothing falls back.
pub open spec fn from_usable_spec(from: Frame, region: Rect, watch: Seq<Rect>, platform: Platform, source: CaptureSource) -> bool {
    let covered = if watch.len() == 0 {
        from_holds(from, region, region)
    } else {
        forall|i: int| 0 <= i < watch.len() ==> from_holds(from, region, #[trigger] watch[i])
    };
    covered && match first_via(platform, source) {
        Some(v) => v == from.via,
        None => true,
    }
}

fn holds_cut(from: &Frame, region: &Rect, w: &Rect) -> (r: bool)
    ensures
        r == from_holds(*from, *region, *w),
{
    match region.intersect(w) {
        Some(c) => from.rect.contains(&c),
        None => false,
    }
}

pub fn from_usable(from: &Frame, region: Rect, watch: &[Rect], platform: Platform, source: CaptureSource) -> (r: bool)
    ensures
        r == from_usable_spec(*from, region, watch@, platform, source),
{
    let covered = if watch.len() == 0 {
        holds_cut(from, &region, &region)
    } else {
        let mut all = true;
        let mut i: usize = 0;
        while i < watch.len()
            invariant
                i <= watch@.len(),
                all == forall|k: int| 0 <= k < i ==> from_holds(*from, region, #[trigger] watch@[k]),
            decreases watch@.len() - i,
        {
            if !holds_cut(from, &region, &watch[i]) {
                all = false;
            }
            i += 1;
        }
        all
    };
    covered && match first_choice_via(platform, source) {
        Some(v) => v == from.via,
        None => true,
    }
}


/// A request waiting for a round.
pub struct Entry {
    pub req: SnapReq,
    /// Not photographed before this.
    pub due: u64,
    /// Its owner is about to act (`expedite`).
    pub urgent: bool,
}

/// Whether a background request due at `due` has waited `AGING_MS` by `now`.
pub open spec fn lane_aged(now: u64, due: u64) -> bool {
    now - due >= AGING_MS
}

pub open spec fn entry_class(e: Entry, now: u64) -> Class {
    if e.urgent {
        Class::Urgent
    } else {
        match e.req.ticket.prio {
            Priority::Interactive => Class::Interactive,
            Priority::Background => if lane_aged(now, e.due) {
                Class::Aged
            } else {
                Class::Background
            },
        }
    }
}

/// Whether `a` is more urgent than `b`: the lower class, then the one due longer.
pub open spec fn entry_key_lt(a: Entry, b: Entry, now: u64) -> bool {
    class_rank(entry_class(a, now)) < class_rank(entry_class(b, now)) || (class_rank(
        entry_class(a, now),
    ) == class_rank(entry_class(b, now)) && a.due < b.due)
}

/// The order a round weighs requests in: by urgency, and in the order they were asked on a
/// tie.
pub open spec fn entry_before(es: Seq<Entry>, now: u64, a: int, b: int) -> bool {
    entry_key_lt(es[a], es[b], now) || (!entry_key_lt(es[b], es[a], now) && a < b)
}

/// Whether request `i` is due and not cancelled, by the flags the lane read.
pub open spec fn ready_at(es: Seq<Entry>, flags: Seq<bool>, now: u64, i: int) -> bool {
    es[i].due <= now && !flags[i]
}

/// Request `i` is the most urgent one that is due.
pub open spec fn is_best(es: Seq<Entry>, flags: Seq<bool>, now: u64, i: int) -> bool {
    &&& 0 <= i < es.len()
    &&& ready_at(es, flags, now, i)
    &&& forall|k: int|
        0 <= k < es.len() && k != i && ready_at(es, flags, now, k) ==> entry_before(es, now, i, k)
}

/// Whether some request is due, by the flags read.
pub open spec fn any_due(es: Seq<Entry>, flags: Seq<bool>, now: u64) -> bool {
    exists|i: int| 0 <= i < es.len() && ready_at(es, flags, now, i)
}

/// The requests `gone` leaves, in order.
pub open spec fn without(es: Seq<Entry>, gone: spec_fn(int) -> bool) -> Seq<Entry>
    decreases es.len(),
{
    if es.len() == 0 {
        Seq::empty()
    } else {
        let rest = without(es.drop_last(), gone);
        if gone(es.len() - 1) {
            rest
        } else {
            rest.push(es.last())
        }
    }
}

/// The (id, time asked), in order, of the requests `gone` takes.
pub open spec fn answers_of(es: Seq<Entry>, gone: spec_fn(int) -> bool) -> Seq<(SnapId, u64)>
    decreases es.len(),
{
    if es.len() == 0 {
        Seq::empty()
    } else {
        let rest = answers_of(es.drop_last(), gone);
        if gone(es.len() - 1) {
            rest.push((es.last().req.ticket.id, es.last().req.asked))
        } else {
            rest
        }
    }
}

pub open spec fn flagged(flags: Seq<bool>) -> spec_fn(int) -> bool {
    |i: int| flags[i]
}

/// Whether module `idx` has a request that holds its input: waiting (and not cancelled, by the
/// flags read) or in the round being taken.
pub open spec fn lane_holds(es: Seq<Entry>, flags: Seq<bool>, taking: Seq<(SnapId, usize, bool)>, idx: usize) -> bool {
    (exists|i: int|
        0 <= i < es.len() && (#[trigger] es[i]).req.holds && es[i].req.ticket.owner.idx == idx
            && !flags[i]) || (exists|i: int|
        0 <= i < taking.len() && (#[trigger] taking[i]).2 && taking[i].1 == idx)
}

/// What `candidate` answers when the cancel flags read were `flags`: the class and due time of
/// the most urgent due request, or `None` when none is due.
pub open spec fn candidate_of(es: Seq<Entry>, flags: Seq<bool>, now: u64, r: Option<Cand>) -> bool {
    flags.len() == es.len() && match r {
        Some(c) => exists|i: int|
            #[trigger] is_best(es, flags, now, i) && c == (Cand { class: entry_class(es[i], now), due: es[i].due }),
        None => !any_due(es, flags, now),
    }
}

/// Reads a request's cancel flag, which the event loop may set at any moment.
fn cancelled(req: &SnapReq) -> bool {
    req.cancel.load(Ordering::Acquire)
}

fn lane_is_aged(now: u64, due: u64) -> (r: bool)
    ensures
        r == lane_aged(now, due),
{
    now >= due && now - due >= AGING_MS
}

fn class_of(e: &Entry, now: u64) -> (c: Class)
    ensures
        c == entry_class(*e, now),
{
    if e.urgent {
        return Class::Urgent;
    }
    match e.req.ticket.prio {
        Priority::Interactive => Class::Interactive,
        Priority::Background => if lane_is_aged(now, e.due) {
            Class::Aged
        } else {
            Class::Background
        },
    }
}

fn key_lt(a: &Entry, b: &Entry, now: u64) -> (r: bool)
    ensures
        r == entry_key_lt(*a, *b, now),
{
    let (ca, cb) = (class_order(class_of(a, now)), class_order(class_of(b, now)));
    ca < cb || (ca == cb && a.due < b.due)
}

/// The requests waiting for a round, and the round being taken.
pub struct SnapLane<D> {
    waiting: Vec<Entry>,
    /// The requests of the round being taken now: (id, owner index, holds input).
    taking: Vec<(SnapId, usize, bool)>,
    /// Which display a point lies on: one standard capture never spans two.
    display_of: D,
}

/// Whether `r` is when the first of the waiting requests `es` falls due: the earliest due
/// time among them, or `None` when none waits.
pub open spec fn wakes_at(es: Seq<Entry>, r: Option<u64>) -> bool {
    match r {
        Some(t) => (exists|i: int| 0 <= i < es.len() && (#[trigger] es[i]).due == t) && forall|i: int|
            0 <= i < es.len() ==> t <= (#[trigger] es[i]).due,
        None => es.len() == 0,
    }
}

/// A request submitted to the lane wakes it by its due time: the lane's next wake becomes the
/// earlier of the one it had and the new request's — its due time when nothing was waiting.
pub proof fn a_submitted_request_wakes_the_lane_by_its_due(es: Seq<Entry>, e: Entry, before: Option<u64>, after: Option<u64>)
    requires
        wakes_at(es, before),
        wakes_at(es.push(e), after),
    ensures
        after == Some(
            match before {
                None => e.due,
                Some(t) => if t <= e.due {
                    t
                } else {
                    e.due
                },
            },
        ),
{
    let n = es.push(e);
    assert(n[es.len() as int] == e);
    match after {
        None => {},
        Some(t) => {
            let i = choose|i: int| 0 <= i < n.len() && (#[trigger] n[i]).due == t;
            assert(t <= n[es.len() as int].due);
            match before {
                None => {
                    assert(i == es.len());
                },
                Some(b) => {
                    let j = choose|j: int| 0 <= j < es.len() && (#[trigger] es[j]).due == b;
                    assert(n[j] == es[j]);
                    assert(t <= n[j].due);
                    if i < es.len() {
                        assert(n[i] == es[i]);
                        assert(b <= es[i].due);
                    }
                },
            }
        },
    }
}

/// A picture, or why there is none, with the reason as text.
pub open spec fn shot_view(s: Result<Frame, String>) -> Result<Frame, Seq<char>> {
    match s {
        Ok(f) => Ok(f),
        Err(e) => Err(e@),
    }
}

/// What a round's capture of `rect` answers with when the backend returned `got` (or nothing):
/// the picture, stamped with the round's input epoch, when it covers the rectangle; a failed
/// capture (`failed`) when it does not, or is missing; the backend's reason when it failed.
pub open spec fn shot_of(rect: Rect, got: Option<Result<Frame, String>>, input_epoch: u64, failed: Seq<char>) -> Result<Frame, Seq<char>> {
    match got {
        Some(Ok(f)) => if rect_contains(f.rect, rect) {
            Ok(Frame { input_epoch, ..f })
        } else {
            Err(failed)
        },
        Some(Err(why)) => Err(why@),
        None => Err(failed),
    }
}

/// The pictures a round works from, one per planned capture in order: `frames` as the backend
/// returned them, each stamped with `input_epoch` (`host.inputEpoch()` once the captures came
/// back); a missing one, or one that does not cover its rectangle, is a failed capture,
/// `failed` being the backend's words for it.
pub fn round_shots(rects: &Vec<Rect>, frames: Vec<Result<Frame, String>>, input_epoch: u64, failed: &str) -> (r: Vec<Result<Frame, String>>)
    ensures
        r@.len() == rects@.len(),
        forall|k: int|
            0 <= k < rects@.len() ==> shot_view(#[trigger] r@[k]) == shot_of(
                rects@[k],
                if k < frames@.len() {
                    Some(frames@[k])
                } else {
                    None
                },
                input_epoch,
                failed@,
            ),
{
    let mut out: Vec<Result<Frame, String>> = Vec::new();
    let mut k: usize = 0;
    while k < rects.len()
        invariant
            k <= rects@.len(),
            out@.len() == k,
            forall|j: int|
                0 <= j < k ==> shot_view(#[trigger] out@[j]) == shot_of(
                    rects@[j],
                    if j < frames@.len() {
                        Some(frames@[j])
                    } else {
                        None
                    },
                    input_epoch,
                    failed@,
                ),
        decreases rects@.len() - k,
    {
        let r = rects[k];
        let shot = if k < frames.len() {
            match &frames[k] {
                Ok(f) => if f.rect.contains(&r) {
                    Ok(Frame { input_epoch, ..*f })
                } else {
                    Err(<String as StringExecFns>::from_str(failed))
                },
                Err(why) => Err(why.clone()),
            }
        } else {
            Err(<String as StringExecFns>::from_str(failed))
        };
        out.push(shot);
        k += 1;
    }
    out
}

impl<D: Fn(i32, i32) -> u32> SnapLane<D> {
    /// The requests waiting for a round, in the order they came.
    pub closed spec fn waiting(&self) -> Seq<Entry> {
        self.waiting@
    }

    /// The round being taken now: (id, owner index, holds input) of each of its requests.
    pub closed spec fn taking_now(&self) -> Seq<(SnapId, usize, bool)> {
        self.taking@
    }

    pub closed spec fn display_map(&self) -> D {
        self.display_of
    }

    /// The lane can always ask which display a point lies on.
    pub closed spec fn wf(&self) -> bool {
        forall|x: i32, y: i32| #[trigger] call_requires(self.display_of, (x, y))
    }

    /// An empty lane whose rounds ask `display_of` which display a region's centre lies on.
    pub fn new(display_of: D) -> (l: Self)
        requires
            forall|x: i32, y: i32| #[trigger] call_requires(display_of, (x, y)),
        ensures
            l.wf(),
            l.waiting().len() == 0,
            l.taking_now().len() == 0,
            l.display_map() == display_of,
    {
        SnapLane { waiting: Vec::new(), taking: Vec::new(), display_of }
    }

    /// Queues a request, due when its kind says.
    pub fn submit(&mut self, req: SnapReq)
        ensures
            final(self).wf() == old(self).wf(),
            final(self).waiting() == old(self).waiting().push(
                Entry { due: first_due(req.kind, req.asked), urgent: false, req },
            ),
            final(self).taking_now() == old(self).taking_now(),
            final(self).display_map() == old(self).display_map(),
    {
        let due = match req.kind {
            SnapKind::Plain => req.asked,
            SnapKind::At(t) => t,
            SnapKind::Change { start, .. } => start,
        };
        self.waiting.push(Entry { req, due, urgent: false });
        assert(self.display_of == old(self).display_of);
    }

    /// Requests waiting or being taken.
    pub fn len(&self) -> (n: usize)
        requires
            self.waiting().len() + self.taking_now().len() <= usize::MAX,
        ensures
            n == self.waiting().len() + self.taking_now().len(),
    {
        self.waiting.len() + self.taking.len()
    }

    pub fn is_empty(&self) -> (b: bool)
        ensures
            b == (self.waiting().len() + self.taking_now().len() == 0),
    {
        self.waiting.len() == 0 && self.taking.len() == 0
    }

    /// Requests in the round being taken now.
    pub fn taking(&self) -> (n: usize)
        ensures
            n == self.taking_now().len(),
    {
        self.taking.len()
    }

    /// When the next waiting request falls due, for the thread's sleep; `None` when none waits.
    pub fn next_wake(&self) -> (r: Option<u64>)
        ensures
            wakes_at(self.waiting(), r),
    {
        let mut best: Option<u64> = None;
        let mut i: usize = 0;
        while i < self.waiting.len()
            invariant
                i <= self.waiting@.len(),
                match best {
                    Some(t) => (exists|k: int| 0 <= k < i && (#[trigger] self.waiting@[k]).due == t)
                        && forall|k: int| 0 <= k < i ==> t <= (#[trigger] self.waiting@[k]).due,
                    None => i == 0,
                },
            decreases self.waiting@.len() - i,
        {
            let d = self.waiting[i].due;
            best = match best {
                Some(t) => if d < t {
                    Some(d)
                } else {
                    Some(t)
                },
                None => Some(d),
            };
            i += 1;
        }
        best
    }

    /// Reads every waiting request's cancel flag once.
    fn read_flags(&self) -> (flags: Vec<bool>)
        ensures
            flags@.len() == self.waiting().len(),
    {
        let mut flags: Vec<bool> = Vec::new();
        let mut i: usize = 0;
        while i < self.waiting.len()
            invariant
                i <= self.waiting@.len(),
                flags@.len() == i,
            decreases self.waiting@.len() - i,
        {
            flags.push(cancelled(&self.waiting[i].req));
            i += 1;
        }
        flags
    }

    /// Whether module `idx` has no request that holds its input, by the cancel flags as they
    /// were read.
    pub fn barrier_clear(&self, idx: usize) -> (r: bool)
        ensures
            exists|flags: Seq<bool>|
                flags.len() == self.waiting().len() && r == !lane_holds(
                    self.waiting(),
                    flags,
                    self.taking_now(),
                    idx,
                ),
    {
        let flags = self.read_flags();
        let mut held = false;
        let mut i: usize = 0;
        while i < self.waiting.len()
            invariant
                i <= self.waiting@.len(),
                flags@.len() == self.waiting@.len(),
                held == exists|k: int|
                    0 <= k < i && (#[trigger] self.waiting@[k]).req.holds
                        && self.waiting@[k].req.ticket.owner.idx == idx && !flags@[k],
            decreases self.waiting@.len() - i,
        {
            let e = &self.waiting[i];
            if e.req.holds && e.req.ticket.owner.idx == idx && !flags[i] {
                held = true;
            }
            i += 1;
        }
        let mut k: usize = 0;
        while k < self.taking.len()
            invariant
                k <= self.taking@.len(),
                flags@.len() == self.waiting@.len(),
                held == ((exists|m: int|
                    0 <= m < self.waiting@.len() && (#[trigger] self.waiting@[m]).req.holds
                        && self.waiting@[m].req.ticket.owner.idx == idx && !flags@[m]) || exists|m: int|
                    0 <= m < k && (#[trigger] self.taking@[m]).2 && self.taking@[m].1 == idx),
            decreases self.taking@.len() - k,
        {
            let (_, who, holds) = self.taking[k];
            if holds && who == idx {
                held = true;
            }
            k += 1;
        }
        assert(held == lane_holds(self.waiting(), flags@, self.taking_now(), idx));
        !held
    }

    /// Module `idx` is about to act: its waiting requests that hold its input go first. True
    /// when it has any.
    pub fn expedite(&mut self, idx: usize) -> (any: bool)
        ensures
            final(self).wf() == old(self).wf(),
            final(self).taking_now() == old(self).taking_now(),
            final(self).display_map() == old(self).display_map(),
            final(self).waiting().len() == old(self).waiting().len(),
            forall|i: int|
                0 <= i < old(self).waiting().len() ==> #[trigger] final(self).waiting()[i] == if old(
                    self,
                ).waiting()[i].req.holds && old(self).waiting()[i].req.ticket.owner.idx == idx {
                    Entry { urgent: true, ..old(self).waiting()[i] }
                } else {
                    old(self).waiting()[i]
                },
            any == exists|i: int|
                0 <= i < old(self).waiting().len() && (#[trigger] old(self).waiting()[i]).req.holds
                    && old(self).waiting()[i].req.ticket.owner.idx == idx,
    {
        let ghost before = self.waiting@;
        let mut any = false;
        let mut i: usize = 0;
        while i < self.waiting.len()
            invariant
                i <= self.waiting@.len(),
                self.waiting@.len() == before.len(),
                self.taking == old(self).taking,
                self.display_of == old(self).display_of,
                forall|k: int|
                    0 <= k < before.len() ==> #[trigger] self.waiting@[k] == if k < i && before[k].req.holds
                        && before[k].req.ticket.owner.idx == idx {
                        Entry { urgent: true, ..before[k] }
                    } else {
                        before[k]
                    },
                any == exists|k: int|
                    0 <= k < i && (#[trigger] before[k]).req.holds && before[k].req.ticket.owner.idx
                        == idx,
            decreases self.waiting@.len() - i,
        {
            if self.waiting[i].req.holds && self.waiting[i].req.ticket.owner.idx == idx {
                self.waiting[i].urgent = true;
                any = true;
            }
            i += 1;
        }
        any
    }
}


impl<D: Fn(i32, i32) -> u32> SnapLane<D> {
    /// The most urgent due request, by the flags read.
    fn best_ready(&self, flags: &Vec<bool>, now: u64) -> (r: Option<usize>)
        requires
            flags@.len() == self.waiting().len(),
        ensures
            match r {
                Some(i) => is_best(self.waiting(), flags@, now, i as int),
                None => !any_due(self.waiting(), flags@, now),
            },
    {
        let ghost es = self.waiting@;
        let mut best: Option<usize> = None;
        let mut i: usize = 0;
        while i < self.waiting.len()
            invariant
                i <= es.len(),
                es == self.waiting@,
                flags@.len() == es.len(),
                match best {
                    Some(b) => b < i && ready_at(es, flags@, now, b as int) && forall|k: int|
                        0 <= k < i && k != b && ready_at(es, flags@, now, k) ==> entry_before(
                            es,
                            now,
                            b as int,
                            k,
                        ),
                    None => forall|k: int| 0 <= k < i ==> !ready_at(es, flags@, now, k),
                },
            decreases es.len() - i,
        {
            if self.waiting[i].due <= now && !flags[i] {
                match best {
                    Some(b) => {
                        let lt = key_lt(&self.waiting[i], &self.waiting[b], now);
                        proof {
                            if lt {
                                assert forall|k: int|
                                    0 <= k < i + 1 && k != i && ready_at(es, flags@, now, k) implies entry_before(
                                    es,
                                    now,
                                    i as int,
                                    k,
                                ) by {
                                    if k != b {
                                        assert(entry_before(es, now, b as int, k));
                                    }
                                }
                            } else {
                                assert(entry_before(es, now, b as int, i as int));
                            }
                        }
                        if lt {
                            best = Some(i);
                        }
                    },
                    None => {
                        best = Some(i);
                    },
                }
            }
            i += 1;
        }
        best
    }

    /// The most urgent request that is due, as the capture thread weighs it against the text
    /// reads' next capture.
    pub fn candidate(&self, now: u64) -> (r: Option<Cand>)
        ensures
            exists|flags: Seq<bool>| #[trigger] candidate_of(self.waiting(), flags, now, r),
    {
        let flags = self.read_flags();
        match self.best_ready(&flags, now) {
            Some(i) => {
                let c = Cand { class: class_of(&self.waiting[i], now), due: self.waiting[i].due };
                assert(is_best(self.waiting(), flags@, now, i as int));
                assert(candidate_of(self.waiting(), flags@, now, Some(c)));
                Some(c)
            },
            None => {
                assert(candidate_of(self.waiting(), flags@, now, None));
                None
            },
        }
    }

    /// Every waiting request whose flag the event loop set, answered `Cancelled`.
    pub fn sweep_cancelled(&mut self, now: u64) -> (done: Vec<SnapDone>)
        ensures
            final(self).wf() == old(self).wf(),
            final(self).taking_now() == old(self).taking_now(),
            final(self).display_map() == old(self).display_map(),
            exists|flags: Seq<bool>|
                flags.len() == old(self).waiting().len() && final(self).waiting() == without(
                    old(self).waiting(),
                    flagged(flags),
                ) && done@.map_values(|d: SnapDone| (d.id, d.asked)) == answers_of(
                    old(self).waiting(),
                    flagged(flags),
                ),
            forall|i: int|
                0 <= i < done@.len() ==> (#[trigger] done@[i]).outcome is Cancelled && done@[i].ended
                    == now,
    {
        let ghost es = self.waiting@;
        let flags = self.read_flags();
        let mut rest: Vec<Entry> = Vec::new();
        std::mem::swap(&mut rest, &mut self.waiting);
        let n = rest.len();
        let mut done: Vec<SnapDone> = Vec::new();
        let mut k: usize = 0;
        while rest.len() > 0
            invariant
                k <= es.len(),
                es.len() == n,
                flags@.len() == es.len(),
                rest@ == es.subrange(k as int, es.len() as int),
                self.waiting@ == without(es.take(k as int), flagged(flags@)),
                done@.map_values(|d: SnapDone| (d.id, d.asked)) == answers_of(es.take(k as int), flagged(flags@)),
                forall|i: int| 0 <= i < done@.len() ==> (#[trigger] done@[i]).outcome is Cancelled && done@[i].ended == now,
                self.taking == old(self).taking,
                self.display_of == old(self).display_of,
            decreases rest@.len(),
        {
            let e = rest.remove(0);
            proof {
                assert(es.take(k + 1).drop_last() =~= es.take(k as int));
                assert(es.take(k + 1).last() == e);
            }
            let ghost before = done@;
            if flags[k] {
                done.push(SnapDone { id: e.req.ticket.id, outcome: SnapOutcome::Cancelled, asked: e.req.asked, ended: now });
                proof {
                    assert(done@.map_values(|d: SnapDone| (d.id, d.asked)) =~= before.map_values(|d: SnapDone| (d.id, d.asked)).push((e.req.ticket.id, e.req.asked)));
                }
            } else {
                self.waiting.push(e);
            }
            k += 1;
        }
        proof {
            assert(es.take(k as int) =~= es);
        }
        done
    }
}


/// One round: the captures to take, and the requests they answer.
pub struct Round {
    pub source: CaptureSource,
    pub rects: Vec<Rect>,
    /// Every request is a change wait.
    pub poll: bool,
    /// Each request, with the capture it is cut from.
    pub members: Vec<(SnapReq, usize)>,
    pub started: u64,
}

/// What became of one request in a round.
pub enum Step {
    Done { id: SnapId, asked: u64, outcome: SnapOutcome, cancel: Arc<AtomicBool> },
    /// A change wait that goes on.
    Again(SnapReq),
}

/// A round's results, to be handed back to the lane.
pub struct RoundDone {
    pub steps: Vec<Step>,
    pub source: CaptureSource,
    pub started: u64,
    /// What panicked in the host's own code, for the log.
    pub panics: Vec<String>,
}

impl Round {
    /// The ids of the round's requests, in order.
    pub fn ids(&self) -> (r: Vec<SnapId>)
        ensures
            r@ == self.members@.map_values(|m: (SnapReq, usize)| m.0.ticket.id),
    {
        let mut r: Vec<SnapId> = Vec::new();
        let mut i: usize = 0;
        while i < self.members.len()
            invariant
                i <= self.members@.len(),
                r@ == self.members@.take(i as int).map_values(|m: (SnapReq, usize)| m.0.ticket.id),
            decreases self.members@.len() - i,
        {
            r.push(self.members[i].0.ticket.id);
            proof {
                assert(self.members@.take(i + 1).map_values(|m: (SnapReq, usize)| m.0.ticket.id)
                    =~= self.members@.take(i as int).map_values(|m: (SnapReq, usize)| m.0.ticket.id).push(self.members@[i as int].0.ticket.id));
            }
            i += 1;
        }
        proof {
            assert(self.members@.take(i as int) =~= self.members@);
        }
        r
    }

    /// The captures as the backend takes them.
    pub fn tuples(&self) -> (r: Vec<(i32, i32, i32, i32)>)
        ensures
            r@ == self.rects@.map_values(|c: Rect| (c.x, c.y, c.w, c.h)),
    {
        let mut r: Vec<(i32, i32, i32, i32)> = Vec::new();
        let mut i: usize = 0;
        while i < self.rects.len()
            invariant
                i <= self.rects@.len(),
                r@ == self.rects@.take(i as int).map_values(|c: Rect| (c.x, c.y, c.w, c.h)),
            decreases self.rects@.len() - i,
        {
            r.push(self.rects[i].tuple());
            proof {
                assert(self.rects@.take(i + 1).map_values(|c: Rect| (c.x, c.y, c.w, c.h))
                    =~= self.rects@.take(i as int).map_values(|c: Rect| (c.x, c.y, c.w, c.h)).push(
                    (self.rects@[i as int].x, self.rects@[i as int].y, self.rects@[i as int].w, self.rects@[i as int].h)));
            }
            i += 1;
        }
        proof {
            assert(self.rects@.take(i as int) =~= self.rects@);
        }
        r
    }
}

/// Request `k` can share the round of request `first`: another due request of its source.
pub open spec fn shares_source(es: Seq<Entry>, flags: Seq<bool>, now: u64, first: int, k: int) -> bool {
    0 <= k < es.len() && k != first && ready_at(es, flags, now, k) && es[k].req.source == es[first].req.source
}

/// `order` lists the requests that can share `first`'s round, most urgent first.
pub open spec fn urgency_order(es: Seq<Entry>, flags: Seq<bool>, now: u64, first: int, order: Seq<int>) -> bool {
    &&& forall|p: int| 0 <= p < order.len() ==> shares_source(es, flags, now, first, #[trigger] order[p])
    &&& forall|k: int| shares_source(es, flags, now, first, k) ==> #[trigger] order.contains(k)
    &&& forall|p: int, q: int| 0 <= p < q < order.len() ==> entry_before(es, now, #[trigger] order[p], #[trigger] order[q])
}

/// Half of `len`, rounded toward zero.
pub open spec fn half_toward_zero(len: int) -> int {
    if len >= 0 {
        len / 2
    } else {
        -((-len) / 2)
    }
}

/// The centre of a span starting at `a`, clamped into an `i32`.
pub open spec fn centre(a: i32, len: i32) -> i32 {
    crate::types::clamp_i32(a + half_toward_zero(len as int)) as i32
}

/// Whether `v` is what `display_of` answered for the centre of `r`.
pub open spec fn display_answer<D: Fn(i32, i32) -> u32>(display_of: D, r: Rect, v: u32) -> bool {
    call_ensures(display_of, (centre(r.x, r.w), centre(r.y, r.h)), v)
}

/// Through the standard path, the requests of `order` that share the capture, starting from
/// `rect` on display `screen`: each one inside the capture, or whose union with it covers at
/// most `UNION_MAX` pixels on the same display, grows the capture to that union.
pub open spec fn grow(es: Seq<Entry>, disp: Seq<u32>, order: Seq<int>, rect: Rect, screen: u32) -> Seq<int>
    decreases order.len(),
{
    if order.len() == 0 {
        Seq::empty()
    } else {
        let i = order[0];
        let r = es[i].req.region;
        let g = rect_union(rect, r);
        if rect_contains(rect, r) || (rect_area(g) <= UNION_MAX && disp[i] == screen) {
            seq![i] + grow(es, disp, order.drop_first(), g, screen)
        } else {
            grow(es, disp, order.drop_first(), rect, screen)
        }
    }
}

/// The requests of `first`'s round, first in it: through the standard path the ones `grow`
/// takes, through desktop duplication every one of `order`.
pub open spec fn round_members(es: Seq<Entry>, disp: Seq<u32>, first: int, order: Seq<int>) -> Seq<int> {
    seq![first] + if es[first].req.source == CaptureSource::Standard {
        grow(es, disp, order, es[first].req.region, disp[first])
    } else {
        order
    }
}

fn half_of(len: i32) -> (h: i64)
    ensures
        h == half_toward_zero(len as int),
{
    let l = len as i64;
    if l >= 0 {
        l / 2
    } else {
        -((-l) / 2)
    }
}

fn centre_of(a: i32, len: i32) -> (c: i32)
    ensures
        c == centre(a, len),
{
    let v = a as i64 + half_of(len);
    if v > i32::MAX as i64 {
        i32::MAX
    } else if v < i32::MIN as i64 {
        i32::MIN
    } else {
        v as i32
    }
}

/// Whether index `k` occurs in `s`.
fn holds_index(s: &Vec<usize>, k: usize) -> (r: bool)
    ensures
        r == s@.map_values(|x: usize| x as int).contains(k as int),
{
    let ghost m = s@.map_values(|x: usize| x as int);
    let mut i: usize = 0;
    while i < s.len()
        invariant
            i <= s@.len(),
            m == s@.map_values(|x: usize| x as int),
            forall|j: int| 0 <= j < i ==> m[j] != k as int,
        decreases s@.len() - i,
    {
        if s[i] == k {
            assert(m[i as int] == k as int);
            return true;
        }
        i += 1;
    }
    false
}

impl<D: Fn(i32, i32) -> u32> SnapLane<D> {
    fn display(&self, r: &Rect) -> (v: u32)
        requires
            self.wf(),
        ensures
            display_answer(self.display_of, *r, v),
    {
        let x = centre_of(r.x, r.w);
        let y = centre_of(r.y, r.h);
        (self.display_of)(x, y)
    }

    /// The requests that can share `first`'s round, most urgent first.
    fn by_urgency(&self, flags: &Vec<bool>, now: u64, first: usize) -> (order: Vec<usize>)
        requires
            flags@.len() == self.waiting().len(),
            first < self.waiting().len(),
        ensures
            urgency_order(self.waiting(), flags@, now, first as int, order@.map_values(|x: usize| x as int)),
    {
        let ghost es = self.waiting@;
        // The candidates, in the order they came.
        let mut rest: Vec<usize> = Vec::new();
        let mut i: usize = 0;
        while i < self.waiting.len()
            invariant
                i <= es.len(),
                es == self.waiting@,
                flags@.len() == es.len(),
                first < es.len(),
                forall|p: int| 0 <= p < rest@.len() ==> shares_source(es, flags@, now, first as int, #[trigger] rest@[p] as int) && rest@[p] < i,
                forall|p: int, q: int| 0 <= p < q < rest@.len() ==> #[trigger] rest@[p] < #[trigger] rest@[q],
                forall|k: int| 0 <= k < i && shares_source(es, flags@, now, first as int, k) ==> exists|p: int| 0 <= p < rest@.len() && #[trigger] rest@[p] as int == k,
            decreases es.len() - i,
        {
            let ghost old_rest = rest@;
            if i != first && self.waiting[i].due <= now && !flags[i] && self.waiting[i].req.source == self.waiting[first].req.source {
                rest.push(i);
                proof {
                    assert(rest@[old_rest.len() as int] as int == i as int);
                }
            }
            proof {
                assert forall|k: int| 0 <= k < i + 1 && shares_source(es, flags@, now, first as int, k) implies exists|p: int| 0 <= p < rest@.len() && #[trigger] rest@[p] as int == k by {
                    if k < i {
                        let p = choose|p: int| 0 <= p < old_rest.len() && #[trigger] old_rest[p] as int == k;
                        assert(rest@[p] == old_rest[p]);
                    } else {
                        assert(rest@[old_rest.len() as int] as int == k);
                    }
                }
            }
            i += 1;
        }
        // Picked most urgent first: each pick is the earliest of the most urgent left.
        let mut order: Vec<usize> = Vec::new();
        while rest.len() > 0
            invariant
                es == self.waiting@,
                flags@.len() == es.len(),
                first < es.len(),
                forall|p: int| 0 <= p < rest@.len() ==> shares_source(es, flags@, now, first as int, #[trigger] rest@[p] as int),
                forall|p: int| 0 <= p < order@.len() ==> shares_source(es, flags@, now, first as int, #[trigger] order@[p] as int),
                forall|p: int, q: int| 0 <= p < q < rest@.len() ==> #[trigger] rest@[p] < #[trigger] rest@[q],
                forall|p: int, q: int| 0 <= p < q < order@.len() ==> entry_before(es, now, #[trigger] order@[p] as int, #[trigger] order@[q] as int),
                forall|p: int, q: int| 0 <= p < order@.len() && 0 <= q < rest@.len() ==> entry_before(es, now, #[trigger] order@[p] as int, #[trigger] rest@[q] as int),
                forall|k: int| shares_source(es, flags@, now, first as int, k) ==> (exists|p: int| 0 <= p < rest@.len() && #[trigger] rest@[p] as int == k) || (exists|p: int| 0 <= p < order@.len() && #[trigger] order@[p] as int == k),
            decreases rest@.len(),
        {
            let mut b: usize = 0;
            let mut j: usize = 1;
            while j < rest.len()
                invariant
                    es == self.waiting@,
                    1 <= j <= rest@.len(),
                    b < j,
                    forall|p: int| 0 <= p < rest@.len() ==> 0 <= #[trigger] rest@[p] < es.len(),
                    forall|p: int, q: int| 0 <= p < q < rest@.len() ==> #[trigger] rest@[p] < #[trigger] rest@[q],
                    forall|q: int| 0 <= q < j && q != b ==> entry_before(es, now, rest@[b as int] as int, #[trigger] rest@[q] as int),
                decreases rest@.len() - j,
            {
                if key_lt(&self.waiting[rest[j]], &self.waiting[rest[b]], now) {
                    proof {
                        assert forall|q: int| 0 <= q < j + 1 && q != j implies entry_before(es, now, rest@[j as int] as int, #[trigger] rest@[q] as int) by {
                            if q != b {
                                assert(entry_before(es, now, rest@[b as int] as int, rest@[q] as int));
                            }
                        }
                    }
                    b = j;
                } else {
                    assert(entry_before(es, now, rest@[b as int] as int, rest@[j as int] as int));
                }
                j += 1;
            }
            let ghost old_rest = rest@;
            let ghost old_order = order@;
            let m = rest.remove(b);
            order.push(m);
            proof {
                assert forall|p: int, q: int| 0 <= p < order@.len() && 0 <= q < rest@.len() implies entry_before(es, now, #[trigger] order@[p] as int, #[trigger] rest@[q] as int) by {
                    let qq = if q < b { q } else { q + 1 };
                    assert(rest@[q] == old_rest[qq]);
                    if p < old_order.len() {
                        assert(order@[p] == old_order[p]);
                    }
                }
                assert forall|k: int| shares_source(es, flags@, now, first as int, k) implies (exists|p: int| 0 <= p < rest@.len() && #[trigger] rest@[p] as int == k) || (exists|p: int| 0 <= p < order@.len() && #[trigger] order@[p] as int == k) by {
                    if exists|p: int| 0 <= p < old_rest.len() && #[trigger] old_rest[p] as int == k {
                        let p = choose|p: int| 0 <= p < old_rest.len() && #[trigger] old_rest[p] as int == k;
                        if p < b {
                            assert(rest@[p] == old_rest[p]);
                        } else if p > b {
                            assert(rest@[p - 1] == old_rest[p]);
                        } else {
                            assert(order@[old_order.len() as int] as int == k);
                        }
                    } else {
                        let p = choose|p: int| 0 <= p < old_order.len() && #[trigger] old_order[p] as int == k;
                        assert(order@[p] == old_order[p]);
                    }
                }
            }
        }
        proof {
            let o = order@.map_values(|x: usize| x as int);
            assert forall|k: int| shares_source(es, flags@, now, first as int, k) implies #[trigger] o.contains(k) by {
                let p = choose|p: int| 0 <= p < order@.len() && #[trigger] order@[p] as int == k;
                assert(o[p] == k);
            }
        }
        order
    }
}


/// Every request of `s` comes before the next ones, by urgency.
pub open spec fn in_urgency_order(es: Seq<Entry>, now: u64, s: Seq<int>) -> bool {
    forall|p: int, q: int| 0 <= p < q < s.len() ==> entry_before(es, now, #[trigger] s[p], #[trigger] s[q])
}

/// What `grow` takes is a part of `order`, in its order.
proof fn lemma_grow_sorted(es: Seq<Entry>, disp: Seq<u32>, now: u64, order: Seq<int>, rect: Rect, screen: u32)
    requires
        in_urgency_order(es, now, order),
    ensures
        in_urgency_order(es, now, grow(es, disp, order, rect, screen)),
        forall|p: int|
            0 <= p < grow(es, disp, order, rect, screen).len() ==> order.contains(
                #[trigger] grow(es, disp, order, rect, screen)[p],
            ),
    decreases order.len(),
{
    if order.len() > 0 {
        let i = order[0];
        let r = es[i].req.region;
        let g = rect_union(rect, r);
        let rest = order.drop_first();
        assert(in_urgency_order(es, now, rest)) by {
            assert forall|p: int, q: int| 0 <= p < q < rest.len() implies entry_before(es, now, #[trigger] rest[p], #[trigger] rest[q]) by {
                assert(rest[p] == order[p + 1] && rest[q] == order[q + 1]);
            }
        }
        lemma_grow_sorted(es, disp, now, rest, g, screen);
        lemma_grow_sorted(es, disp, now, rest, rect, screen);
        let tail = grow(es, disp, rest, g, screen);
        let other = grow(es, disp, rest, rect, screen);
        assert forall|p: int| 0 <= p < other.len() implies order.contains(#[trigger] other[p]) by {
            let t = choose|t: int| 0 <= t < rest.len() && rest[t] == other[p];
            assert(order[t + 1] == other[p]);
        }
        if rect_contains(rect, r) || (rect_area(g) <= UNION_MAX && disp[i] == screen) {
            let all = seq![i] + tail;
            assert(grow(es, disp, order, rect, screen) == all);
            assert forall|p: int| 0 <= p < all.len() implies order.contains(#[trigger] all[p]) by {
                if p == 0 {
                    assert(order[0] == all[p]);
                } else {
                    assert(all[p] == tail[p - 1]);
                    let t = choose|t: int| 0 <= t < rest.len() && rest[t] == tail[p - 1];
                    assert(order[t + 1] == all[p]);
                }
            }
            assert forall|p: int, q: int| 0 <= p < q < all.len() implies entry_before(es, now, #[trigger] all[p], #[trigger] all[q]) by {
                assert(all[q] == tail[q - 1]);
                if p == 0 {
                    let t = choose|t: int| 0 <= t < rest.len() && rest[t] == tail[q - 1];
                    assert(order[t + 1] == all[q]);
                    assert(entry_before(es, now, order[0], order[t + 1]));
                } else {
                    assert(all[p] == tail[p - 1]);
                }
            }
        }
    }
}

/// Whether `s` holds no index twice.
pub open spec fn distinct(s: Seq<int>) -> bool {
    forall|p: int, q: int| 0 <= p < q < s.len() ==> #[trigger] s[p] != #[trigger] s[q]
}

/// The requests `m` picks, left out.
pub open spec fn in_round(m: Seq<int>) -> spec_fn(int) -> bool {
    |k: int| m.contains(k)
}

/// (id, owner index, holds input) of each request `m` picks, in that order.
pub open spec fn taking_of(es: Seq<Entry>, m: Seq<int>) -> Seq<(SnapId, usize, bool)> {
    m.map_values(|k: int| (es[k].req.ticket.id, es[k].req.ticket.owner.idx, es[k].req.holds))
}

/// `round` photographs the requests `m` picks, first `m[0]`, at `now`: its source is theirs, its
/// captures are the plan for their regions through it, and `poll` says that all are change
/// waits.
pub open spec fn round_of(es: Seq<Entry>, m: Seq<int>, now: u64, round: Round) -> bool {
    let regions = m.map_values(|k: int| es[k].req.region);
    &&& m.len() > 0
    &&& round.source == es[m[0]].req.source
    &&& round.started == now
    &&& round.members@.len() == m.len()
    &&& forall|p: int| 0 <= p < m.len() ==> (#[trigger] round.members@[p]).0 == es[m[p]].req
    &&& (round.rects@, round.members@.map_values(|x: (SnapReq, usize)| x.1)) == group_model(
        regions,
        union_limit(round.source),
    )
    &&& round.poll == forall|p: int| 0 <= p < m.len() ==> is_wait(#[trigger] es[m[p]].req.kind)
}

/// What `take` did, by the cancel flags it read and the displays it was told: with no request
/// due, nothing; else the round of the most urgent due request `first`, with the requests of
/// `order` (the others of its source, most urgent first) that share its capture, taken out of
/// the lane and recorded as the round being taken.
pub open spec fn took<D: Fn(i32, i32) -> u32>(
    es: Seq<Entry>,
    display_of: D,
    flags: Seq<bool>,
    disp: Seq<u32>,
    now: u64,
    first: int,
    order: Seq<int>,
    r: Option<Round>,
    es2: Seq<Entry>,
    taking1: Seq<(SnapId, usize, bool)>,
    taking2: Seq<(SnapId, usize, bool)>,
) -> bool {
    &&& flags.len() == es.len()
    &&& disp.len() == es.len()
    &&& match r {
        None => !any_due(es, flags, now) && es2 == es && taking2 == taking1,
        Some(round) => {
            let m = round_members(es, disp, first, order);
            &&& is_best(es, flags, now, first)
            &&& urgency_order(es, flags, now, first, order)
            &&& (es[first].req.source == CaptureSource::Standard ==> display_answer(
                display_of,
                es[first].req.region,
                disp[first],
            ) && forall|p: int|
                0 <= p < order.len() ==> display_answer(
                    display_of,
                    es[#[trigger] order[p]].req.region,
                    disp[order[p]],
                ))
            &&& round_of(es, m, now, round)
            &&& es2 == without(es, in_round(m))
            &&& taking2 == taking_of(es, m)
        },
    }
}


impl<D: Fn(i32, i32) -> u32> SnapLane<D> {
    /// The requests of `first`'s round, first in it, and the displays the lane was told.
    fn pick_members(&self, flags: &Vec<bool>, now: u64, first: usize, order: &Vec<usize>) -> (r: (Vec<usize>, Vec<u32>))
        requires
            self.wf(),
            flags@.len() == self.waiting().len(),
            is_best(self.waiting(), flags@, now, first as int),
            urgency_order(self.waiting(), flags@, now, first as int, order@.map_values(|x: usize| x as int)),
        ensures
            r.1@.len() == self.waiting().len(),
            self.waiting()[first as int].req.source == CaptureSource::Standard ==> display_answer(
                self.display_map(),
                self.waiting()[first as int].req.region,
                r.1@[first as int],
            ) && forall|p: int|
                0 <= p < order@.len() ==> display_answer(
                    self.display_map(),
                    self.waiting()[(#[trigger] order@[p]) as int].req.region,
                    r.1@[order@[p] as int],
                ),
            r.0@.map_values(|x: usize| x as int) == round_members(
                self.waiting(),
                r.1@,
                first as int,
                order@.map_values(|x: usize| x as int),
            ),
            distinct(r.0@.map_values(|x: usize| x as int)),
            forall|p: int| 0 <= p < r.0@.len() ==> (#[trigger] r.0@[p]) < self.waiting().len(),
    {
        let ghost es = self.waiting@;
        let ghost oi = order@.map_values(|x: usize| x as int);
        let n = self.waiting.len();
        assert forall|p: int, q: int| 0 <= p < q < oi.len() implies #[trigger] oi[p] != #[trigger] oi[q] by {
            assert(entry_before(es, now, oi[p], oi[q]));
        }
        assert forall|p: int| 0 <= p < oi.len() implies #[trigger] oi[p] != first as int && 0 <= oi[p] < es.len() by {
            assert(shares_source(es, flags@, now, first as int, oi[p]));
        }
        let mut disp: Vec<u32> = Vec::new();
        let mut k: usize = 0;
        while k < n
            invariant
                k <= n,
                n == es.len(),
                disp@.len() == k,
            decreases n - k,
        {
            disp.push(0);
            k += 1;
        }
        let source = self.waiting[first].req.source;
        let mut chosen: Vec<usize> = Vec::new();
        chosen.push(first);
        if source == CaptureSource::Standard {
            let screen = self.display(&self.waiting[first].req.region);
            disp.set(first, screen);
            let mut j: usize = 0;
            while j < order.len()
                invariant
                    j <= oi.len(),
                    es == self.waiting@,
                    self.wf(),
                    oi == order@.map_values(|x: usize| x as int),
                    disp@.len() == es.len(),
                    forall|p: int, q: int| 0 <= p < q < oi.len() ==> #[trigger] oi[p] != #[trigger] oi[q],
                    forall|p: int| 0 <= p < oi.len() ==> #[trigger] oi[p] != first as int && 0 <= oi[p] < es.len(),
                    display_answer(self.display_of, es[first as int].req.region, disp@[first as int]),
                    disp@[first as int] == screen,
                    first < es.len(),
                    forall|p: int| 0 <= p < j ==> display_answer(self.display_of, es[#[trigger] oi[p]].req.region, disp@[oi[p]]),
                decreases oi.len() - j,
            {
                let i = order[j];
                assert(oi[j as int] == i as int);
                let v = self.display(&self.waiting[i].req.region);
                let ghost before = disp@;
                disp.set(i, v);
                assert(disp@[first as int] == before[first as int]);
                assert forall|p: int| 0 <= p < j + 1 implies display_answer(self.display_of, es[#[trigger] oi[p]].req.region, disp@[oi[p]]) by {
                    if p < j {
                        assert(disp@[oi[p]] == before[oi[p]]);
                    }
                }
                j += 1;
            }
            let mut rect = self.waiting[first].req.region;
            proof {
                assert(oi.skip(0) =~= oi);
                assert(chosen@.map_values(|x: usize| x as int).drop_first() =~= Seq::<int>::empty());
            }
            let mut j: usize = 0;
            while j < order.len()
                invariant
                    j <= oi.len(),
                    es == self.waiting@,
                    first < es.len(),
                    display_answer(self.display_of, es[first as int].req.region, disp@[first as int]),
                    forall|p: int| 0 <= p < oi.len() ==> display_answer(self.display_of, es[#[trigger] oi[p]].req.region, disp@[oi[p]]),
                    oi == order@.map_values(|x: usize| x as int),
                    disp@.len() == es.len(),
                    disp@[first as int] == screen,
                    forall|p: int| 0 <= p < oi.len() ==> #[trigger] oi[p] != first as int && 0 <= oi[p] < es.len(),
                    chosen@.len() >= 1,
                    chosen@[0] == first,
                    chosen@.map_values(|x: usize| x as int).drop_first() + grow(es, disp@, oi.skip(j as int), rect, screen)
                        == grow(es, disp@, oi, es[first as int].req.region, screen),
                    forall|p: int| 0 <= p < chosen@.len() ==> (#[trigger] chosen@[p]) < es.len(),
                decreases oi.len() - j,
            {
                let i = order[j];
                let r = self.waiting[i].req.region;
                let grown = rect.union(&r);
                let ghost ci = chosen@.map_values(|x: usize| x as int);
                proof {
                    assert(oi.skip(j as int)[0] == i as int);
                    assert(oi.skip(j as int).drop_first() =~= oi.skip(j + 1));
                }
                if rect.contains(&r) || (grown.area() <= UNION_MAX && disp[i] == screen) {
                    rect = grown;
                    chosen.push(i);
                    proof {
                        assert(chosen@.map_values(|x: usize| x as int).drop_first() =~= ci.drop_first().push(i as int));
                        assert(ci.drop_first().push(i as int) + grow(es, disp@, oi.skip(j + 1), rect, screen)
                            =~= ci.drop_first() + (seq![i as int] + grow(es, disp@, oi.skip(j + 1), rect, screen)));
                    }
                }
                j += 1;
            }
            proof {
                assert(oi.skip(j as int) =~= Seq::<int>::empty());
                let ci = chosen@.map_values(|x: usize| x as int);
                assert(ci =~= seq![first as int] + ci.drop_first());
            }
        } else {
            let mut j: usize = 0;
            while j < order.len()
                invariant
                    j <= oi.len(),
                    oi == order@.map_values(|x: usize| x as int),
                    chosen@.map_values(|x: usize| x as int) == seq![first as int] + oi.take(j as int),
                    forall|p: int| 0 <= p < oi.len() ==> #[trigger] oi[p] != first as int && 0 <= oi[p] < es.len(),
                    first < es.len(),
                    forall|p: int| 0 <= p < chosen@.len() ==> (#[trigger] chosen@[p]) < es.len(),
                decreases oi.len() - j,
            {
                let i = order[j];
                let ghost ci = chosen@.map_values(|x: usize| x as int);
                assert(oi[j as int] == i as int);
                chosen.push(i);
                proof {
                    assert(chosen@.map_values(|x: usize| x as int) =~= ci.push(i as int));
                    assert(oi.take(j + 1) =~= oi.take(j as int).push(i as int));
                    assert(chosen@.map_values(|x: usize| x as int) =~= seq![first as int] + oi.take(j + 1));
                }
                j += 1;
            }
            proof {
                assert(oi.take(j as int) =~= oi);
            }
        }
        proof {
            let ci = chosen@.map_values(|x: usize| x as int);
            assert forall|p: int| 0 <= p < order@.len() implies #[trigger] order@[p] as int == oi[p] by {}
            assert(ci == round_members(es, disp@, first as int, oi));
            let tail = if es[first as int].req.source == CaptureSource::Standard {
                grow(es, disp@, oi, es[first as int].req.region, disp@[first as int])
            } else {
                oi
            };
            assert(in_urgency_order(es, now, oi));
            lemma_grow_sorted(es, disp@, now, oi, es[first as int].req.region, disp@[first as int]);
            assert(ci =~= seq![first as int] + tail);
            assert forall|p: int, q: int| 0 <= p < q < ci.len() implies #[trigger] ci[p] != #[trigger] ci[q] by {
                assert(ci[q] == tail[q - 1]);
                assert(oi.contains(tail[q - 1]));
                if p > 0 {
                    assert(ci[p] == tail[p - 1]);
                    assert(entry_before(es, now, tail[p - 1], tail[q - 1]));
                }
            }
        }
        (chosen, disp)
    }
}


impl<D: Fn(i32, i32) -> u32> SnapLane<D> {
    /// Takes the requests `chosen` picks out of the lane, in that order; the rest keep theirs.
    fn take_out(&mut self, chosen: &Vec<usize>) -> (members: Vec<Entry>)
        requires
            distinct(chosen@.map_values(|x: usize| x as int)),
            forall|p: int| 0 <= p < chosen@.len() ==> (#[trigger] chosen@[p]) < old(self).waiting().len(),
        ensures
            final(self).wf() == old(self).wf(),
            final(self).taking_now() == old(self).taking_now(),
            final(self).display_map() == old(self).display_map(),
            final(self).waiting() == without(old(self).waiting(), in_round(chosen@.map_values(|x: usize| x as int))),
            members@ == chosen@.map_values(|x: usize| x as int).map_values(|k: int| old(self).waiting()[k]),
    {
        let ghost es = self.waiting@;
        let ghost ci = chosen@.map_values(|x: usize| x as int);
        let n = self.waiting.len();
        let mut rest: Vec<Entry> = Vec::new();
        std::mem::swap(&mut rest, &mut self.waiting);
        let mut slots: Vec<Option<Entry>> = Vec::new();
        let mut k: usize = 0;
        while rest.len() > 0
            invariant
                k <= es.len(),
                n == es.len(),
                rest@ == es.skip(k as int),
                slots@ == es.take(k as int).map_values(|e: Entry| Some(e)),
            decreases rest@.len(),
        {
            let e = rest.remove(0);
            proof {
                assert(es.skip(k as int)[0] == e);
                assert(es.skip(k as int).drop_first() =~= es.skip(k + 1));
            }
            slots.push(Some(e));
            proof {
                assert(es.take(k + 1).map_values(|e: Entry| Some(e)) =~= es.take(k as int).map_values(|e: Entry| Some(e)).push(Some(e)));
            }
            k += 1;
        }
        assert(es.take(k as int) =~= es);
        let mut members: Vec<Entry> = Vec::new();
        let mut p: usize = 0;
        while p < chosen.len()
            invariant
                p <= ci.len(),
                ci == chosen@.map_values(|x: usize| x as int),
                distinct(ci),
                forall|q: int| 0 <= q < chosen@.len() ==> (#[trigger] chosen@[q]) < es.len(),
                slots@.len() == es.len(),
                forall|j: int| 0 <= j < es.len() ==> #[trigger] slots@[j] == if ci.take(p as int).contains(j) {
                    None
                } else {
                    Some(es[j])
                },
                members@ == ci.take(p as int).map_values(|j: int| es[j]),
            decreases ci.len() - p,
        {
            let c = chosen[p];
            proof {
                assert(ci[p as int] == c as int);
                if ci.take(p as int).contains(c as int) {
                    let q = choose|q: int| 0 <= q < p && ci.take(p as int)[q] == c as int;
                    assert(ci[q] == ci[p as int]);
                }
            }
            let ghost before = slots@;
            let e = slots[c].take().unwrap();
            members.push(e);
            proof {
                assert(slots@ == before.update(c as int, None));
                assert forall|j: int| 0 <= j < es.len() implies #[trigger] slots@[j] == if ci.take(p + 1).contains(j) {
                    None
                } else {
                    Some(es[j])
                } by {
                    let t1 = ci.take(p + 1);
                    let t0 = ci.take(p as int);
                    assert(t1 =~= t0.push(c as int));
                    if j != c {
                        assert(slots@[j] == before[j]);
                        if t1.contains(j) {
                            let q = choose|q: int| 0 <= q < t1.len() && t1[q] == j;
                            assert(q != p);
                            assert(t0[q] == j);
                        }
                        if t0.contains(j) {
                            let q = choose|q: int| 0 <= q < t0.len() && t0[q] == j;
                            assert(t1[q] == j);
                        }
                    } else {
                        assert(t1[p as int] == j);
                    }
                }
                assert(ci.take(p + 1) =~= ci.take(p as int).push(c as int));
                assert(members@ =~= ci.take(p + 1).map_values(|j: int| es[j]));
            }
            p += 1;
        }
        assert(ci.take(p as int) =~= ci);
        let ghost sl = slots@;
        let mut k: usize = 0;
        while slots.len() > 0
            invariant
                k <= es.len(),
                n == es.len(),
                sl.len() == es.len(),
                slots@ == sl.skip(k as int),
                forall|j: int| 0 <= j < es.len() ==> #[trigger] sl[j] == if ci.contains(j) {
                    None
                } else {
                    Some(es[j])
                },
                self.waiting@ == without(es.take(k as int), in_round(ci)),
                self.taking == old(self).taking,
                self.display_of == old(self).display_of,
            decreases slots@.len(),
        {
            let s = slots.remove(0);
            proof {
                assert(sl.skip(k as int)[0] == s);
                assert(sl.skip(k as int).drop_first() =~= sl.skip(k + 1));
                assert(es.take(k + 1).drop_last() =~= es.take(k as int));
                assert(es.take(k + 1).last() == es[k as int]);
            }
            match s {
                Some(e) => {
                    self.waiting.push(e);
                },
                None => {},
            }
            k += 1;
        }
        assert(es.take(k as int) =~= es);
        members
    }
}


impl<D: Fn(i32, i32) -> u32> SnapLane<D> {
    /// The round of the most urgent due request, first in it, and the other due requests of its
    /// source that share its picture, in order of urgency: through the standard path the ones
    /// inside the round's rectangle or within `UNION_MAX` pixels of union with it on the same
    /// display, one capture; through desktop duplication all of them. The rest stay due and go
    /// next. `None` when no request is due.
    #[verifier::spinoff_prover]
    pub fn take(&mut self, now: u64) -> (r: Option<Round>)
        requires
            old(self).wf(),
        ensures
            final(self).wf(),
            final(self).display_map() == old(self).display_map(),
            exists|flags: Seq<bool>, disp: Seq<u32>, first: int, order: Seq<int>|
                #[trigger] took(
                    old(self).waiting(),
                    old(self).display_map(),
                    flags,
                    disp,
                    now,
                    first,
                    order,
                    r,
                    final(self).waiting(),
                    old(self).taking_now(),
                    final(self).taking_now(),
                ),
    {
        let ghost es = self.waiting@;
        let flags = self.read_flags();
        let first = match self.best_ready(&flags, now) {
            Some(i) => i,
            None => {
                let ghost disp = Seq::new(es.len(), |i: int| 0u32);
                assert(took(old(self).waiting(), old(self).display_map(), flags@, disp, now, 0, Seq::empty(), None, self.waiting(), old(self).taking_now(), self.taking_now()));
                return None;
            },
        };
        let order = self.by_urgency(&flags, now, first);
        let (chosen, disp) = self.pick_members(&flags, now, first, &order);
        let source = self.waiting[first].req.source;
        let ghost m = chosen@.map_values(|x: usize| x as int);
        let ghost oi = order@.map_values(|x: usize| x as int);
        assert(m[0] == first as int);
        let mut members = self.take_out(&chosen);
        let ghost mm = members@;
        let mut taking: Vec<(SnapId, usize, bool)> = Vec::new();
        let mut regions: Vec<Rect> = Vec::new();
        let mut poll = true;
        let mut p: usize = 0;
        while p < members.len()
            invariant
                p <= m.len(),
                members@ == mm,
                mm == m.map_values(|k: int| es[k]),
                taking@ == taking_of(es, m.take(p as int)),
                regions@ == m.take(p as int).map_values(|k: int| es[k].req.region),
                poll == forall|q: int| 0 <= q < p ==> is_wait(#[trigger] es[m[q]].req.kind),
            decreases m.len() - p,
        {
            let e = &members[p];
            assert(*e == es[m[p as int]]);
            taking.push((e.req.ticket.id, e.req.ticket.owner.idx, e.req.holds));
            regions.push(e.req.region);
            let w = match e.req.kind {
                SnapKind::Change { .. } => true,
                _ => false,
            };
            poll = poll && w;
            proof {
                assert(m.take(p + 1) =~= m.take(p as int).push(m[p as int]));
                assert(taking@ =~= taking_of(es, m.take(p + 1)));
                assert(regions@ =~= m.take(p + 1).map_values(|k: int| es[k].req.region));
            }
            p += 1;
        }
        proof {
            assert(m.take(p as int) =~= m);
        }
        self.taking = taking;
        let (rects, at) = plan_round(regions.as_slice(), source);
        let mut ms: Vec<(SnapReq, usize)> = Vec::new();
        let nm = members.len();
        let mut q: usize = 0;
        while members.len() > 0
            invariant
                q <= mm.len(),
                nm == mm.len(),
                at@.len() == mm.len(),
                members@ == mm.skip(q as int),
                ms@.len() == q,
                forall|j: int| 0 <= j < q ==> (#[trigger] ms@[j]).0 == mm[j].req && ms@[j].1 == at@[j],
            decreases members@.len(),
        {
            let e = members.remove(0);
            proof {
                assert(mm.skip(q as int)[0] == e);
                assert(mm.skip(q as int).drop_first() =~= mm.skip(q + 1));
            }
            ms.push((e.req, at[q]));
            q += 1;
        }
        let round = Round { source, rects, poll, members: ms, started: now };
        proof {
            assert(round.members@.map_values(|x: (SnapReq, usize)| x.1) =~= at@);
            assert(round_of(es, m, now, round));
            assert(took(old(self).waiting(), old(self).display_map(), flags@, disp@, now, first as int, oi, Some(round), self.waiting(), old(self).taking_now(), self.taking_now()));
        }
        Some(round)
    }
}


/// What finishing a round answers for step `st`, whose cancel flag read `cancelled`: a step
/// that ended its request is answered as it ended, or `Cancelled`; a change wait that goes on
/// is answered only when cancelled.
pub open spec fn step_answer(st: Step, cancelled: bool, now: u64) -> Option<SnapDone> {
    match st {
        Step::Done { id, asked, outcome, .. } => Some(
            SnapDone {
                id,
                outcome: if cancelled {
                    SnapOutcome::Cancelled
                } else {
                    outcome
                },
                asked,
                ended: now,
            },
        ),
        Step::Again(req) => if cancelled {
            Some(SnapDone { id: req.ticket.id, outcome: SnapOutcome::Cancelled, asked: req.asked, ended: now })
        } else {
            None
        },
    }
}

/// The latest a change wait of kind `kind` can be photographed next: its deadline.
pub open spec fn deadline_of(kind: SnapKind, now: u64) -> u64 {
    match kind {
        SnapKind::Change { deadline, .. } => deadline,
        _ => now,
    }
}

/// A change wait that goes on waits again, no longer holding its owner's input, due at
/// `due_by` (one minimum round after its round started) or at its deadline if that is sooner.
pub open spec fn step_again(st: Step, cancelled: bool, due_by: u64, now: u64) -> Option<Entry> {
    match st {
        Step::Again(req) => if cancelled {
            None
        } else {
            let d = deadline_of(req.kind, now);
            Some(
                Entry {
                    req: SnapReq { holds: false, ..req },
                    due: if due_by < d {
                        due_by
                    } else {
                        d
                    },
                    urgent: false,
                },
            )
        },
        _ => None,
    }
}

/// The answers of `steps`, in order, by the flags read for them.
pub open spec fn answered(steps: Seq<Step>, flags: Seq<bool>, now: u64) -> Seq<SnapDone>
    decreases steps.len(),
{
    if steps.len() == 0 || flags.len() == 0 {
        Seq::empty()
    } else {
        let rest = answered(steps.drop_last(), flags.drop_last(), now);
        match step_answer(steps.last(), flags.last(), now) {
            Some(d) => rest.push(d),
            None => rest,
        }
    }
}

/// The change waits of `steps` that wait again, in order, by the flags read for them.
pub open spec fn waiting_again(steps: Seq<Step>, flags: Seq<bool>, due_by: u64, now: u64) -> Seq<Entry>
    decreases steps.len(),
{
    if steps.len() == 0 || flags.len() == 0 {
        Seq::empty()
    } else {
        let rest = waiting_again(steps.drop_last(), flags.drop_last(), due_by, now);
        match step_again(steps.last(), flags.last(), due_by, now) {
            Some(e) => rest.push(e),
            None => rest,
        }
    }
}

/// Reads a cancel flag, which the event loop may set at any moment.
fn flag_set(cancel: &Arc<AtomicBool>) -> bool {
    cancel.load(Ordering::Acquire)
}

impl<D: Fn(i32, i32) -> u32> SnapLane<D> {
    /// A round's results: the requests it ended are answered (`Cancelled` when their flag was
    /// set meanwhile), and the change waits that go on wait for their next round, no sooner
    /// than the minimum round of its source after this one started and no later than their
    /// deadline. The round is no longer being taken.
    #[verifier::spinoff_prover]
    pub fn finish(&mut self, done: RoundDone, now: u64, platform: Platform) -> (out: Vec<SnapDone>)
        requires
            done.started + min_round_ms(platform, done.source) <= u64::MAX,
        ensures
            final(self).wf() == old(self).wf(),
            final(self).display_map() == old(self).display_map(),
            final(self).taking_now().len() == 0,
            exists|flags: Seq<bool>|
                flags.len() == done.steps@.len() && out@ == answered(done.steps@, flags, now)
                    && final(self).waiting() == old(self).waiting() + waiting_again(
                    done.steps@,
                    flags,
                    (done.started + min_round_ms(platform, done.source)) as u64,
                    now,
                ),
    {
        self.taking.clear();
        let gap = min_round(platform, done.source);
        let due_by = done.started + gap;
        let RoundDone { steps, .. } = done;
        let ghost all = steps@;
        let ghost before = self.waiting@;
        let mut steps = steps;
        let mut out: Vec<SnapDone> = Vec::new();
        let ghost mut fl: Seq<bool> = Seq::empty();
        let n = steps.len();
        let mut k: usize = 0;
        while steps.len() > 0
            invariant
                k <= all.len(),
                n == all.len(),
                steps@ == all.skip(k as int),
                fl.len() == k,
                out@ == answered(all.take(k as int), fl, now),
                self.waiting@ == before + waiting_again(all.take(k as int), fl, due_by, now),
                self.taking@.len() == 0,
                self.display_of == old(self).display_of,
            decreases steps@.len(),
        {
            let st = steps.remove(0);
            proof {
                assert(all.skip(k as int)[0] == st);
                assert(all.skip(k as int).drop_first() =~= all.skip(k + 1));
                assert(all.take(k + 1).drop_last() =~= all.take(k as int));
                assert(all.take(k + 1).last() == st);
            }
            let ghost w0 = self.waiting@;
            let ghost o0 = out@;
            let ghost g = st;
            let ghost fl0 = fl;
            match st {
                Step::Done { id, asked, outcome, cancel } => {
                    let c = flag_set(&cancel);
                    proof {
                        fl = fl.push(c);
                    }
                    let o = if c {
                        SnapOutcome::Cancelled
                    } else {
                        outcome
                    };
                    out.push(SnapDone { id, outcome: o, asked, ended: now });
                },
                Step::Again(req) => {
                    let c = cancelled(&req);
                    proof {
                        fl = fl.push(c);
                    }
                    if c {
                        out.push(SnapDone { id: req.ticket.id, outcome: SnapOutcome::Cancelled, asked: req.asked, ended: now });
                    } else {
                        let mut req = req;
                        req.holds = false;
                        let deadline = match req.kind {
                            SnapKind::Change { deadline, .. } => deadline,
                            _ => now,
                        };
                        let due = if due_by < deadline {
                            due_by
                        } else {
                            deadline
                        };
                        self.waiting.push(Entry { req, due, urgent: false });
                    }
                },
            }
            proof {
                let t1 = all.take(k + 1);
                assert(fl.drop_last() =~= fl0);
                assert(t1.drop_last() =~= all.take(k as int));
                assert(t1.last() == g);
                match step_answer(g, fl.last(), now) {
                    Some(d) => assert(out@ =~= o0.push(d)),
                    None => assert(out@ =~= o0),
                }
                match step_again(g, fl.last(), due_by, now) {
                    Some(e) => assert(self.waiting@ =~= w0.push(e)),
                    None => assert(self.waiting@ =~= w0),
                }
                assert(answered(t1, fl, now) == match step_answer(g, fl.last(), now) {
                    Some(d) => answered(all.take(k as int), fl0, now).push(d),
                    None => answered(all.take(k as int), fl0, now),
                });
                assert(waiting_again(t1, fl, due_by, now) == match step_again(g, fl.last(), due_by, now) {
                    Some(e) => waiting_again(all.take(k as int), fl0, due_by, now).push(e),
                    None => waiting_again(all.take(k as int), fl0, due_by, now),
                });
            }
            k += 1;
        }
        proof {
            assert(all.take(k as int) =~= all);
        }
        out
    }
}


/// How many of the indices below `n` occur in `m`.
pub open spec fn marked(n: nat, m: Seq<int>) -> nat
    decreases n,
{
    if n == 0 {
        0
    } else {
        marked((n - 1) as nat, m) + if m.contains(n - 1) {
            1nat
        } else {
            0nat
        }
    }
}

proof fn lemma_without_len(es: Seq<Entry>, m: Seq<int>)
    ensures
        without(es, in_round(m)).len() + marked(es.len(), m) == es.len(),
    decreases es.len(),
{
    if es.len() > 0 {
        lemma_without_len(es.drop_last(), m);
    }
}

proof fn lemma_marked_push(n: nat, m: Seq<int>, x: int)
    requires
        !m.contains(x),
    ensures
        marked(n, m.push(x)) == marked(n, m) + if 0 <= x < n {
            1nat
        } else {
            0nat
        },
    decreases n,
{
    if n > 0 {
        lemma_marked_push((n - 1) as nat, m, x);
        let k = n - 1;
        let mx = m.push(x);
        if mx.contains(k) && k != x {
            let q = choose|q: int| 0 <= q < mx.len() && mx[q] == k;
            assert(m[q] == k);
        }
        if m.contains(k) {
            let q = choose|q: int| 0 <= q < m.len() && m[q] == k;
            assert(mx[q] == k);
        }
        if k == x {
            assert(mx[m.len() as int] == k);
        }
    }
}

proof fn lemma_marked_all(n: nat, m: Seq<int>)
    requires
        distinct(m),
        forall|p: int| 0 <= p < m.len() ==> 0 <= #[trigger] m[p] < n,
    ensures
        marked(n, m) == m.len(),
    decreases m.len(),
{
    if m.len() == 0 {
        lemma_marked_none(n, m);
    } else {
        let d = m.drop_last();
        assert forall|p: int, q: int| 0 <= p < q < d.len() implies #[trigger] d[p] != #[trigger] d[q] by {
            assert(d[p] == m[p] && d[q] == m[q]);
        }
        assert forall|p: int| 0 <= p < d.len() implies 0 <= #[trigger] d[p] < n by {
            assert(d[p] == m[p]);
        }
        lemma_marked_all(n, d);
        if d.contains(m.last()) {
            let q = choose|q: int| 0 <= q < d.len() && d[q] == m.last();
            assert(m[q] == m[m.len() - 1]);
        }
        assert(d.push(m.last()) =~= m);
        lemma_marked_push(n, d, m.last());
    }
}

proof fn lemma_marked_none(n: nat, m: Seq<int>)
    requires
        m.len() == 0,
    ensures
        marked(n, m) == 0,
    decreases n,
{
    if n > 0 {
        lemma_marked_none((n - 1) as nat, m);
    }
}

/// A round takes its requests out of the lane, each once: the requests left waiting and the
/// round's together are as many as were waiting, the round's are waiting ones, and none of them
/// is left waiting.
pub proof fn a_round_takes_each_request_once<D: Fn(i32, i32) -> u32>(
    es: Seq<Entry>,
    display_of: D,
    flags: Seq<bool>,
    disp: Seq<u32>,
    now: u64,
    first: int,
    order: Seq<int>,
    round: Round,
    es2: Seq<Entry>,
    taking1: Seq<(SnapId, usize, bool)>,
    taking2: Seq<(SnapId, usize, bool)>,
)
    requires
        took(es, display_of, flags, disp, now, first, order, Some(round), es2, taking1, taking2),
    ensures
        es2.len() + round.members@.len() == es.len(),
        forall|p: int|
            0 <= p < round.members@.len() ==> exists|k: int| 0 <= k < es.len() && (#[trigger] round.members@[p]).0 == es[k].req,
{
    let m = round_members(es, disp, first, order);
    lemma_grow_sorted(es, disp, now, order, es[first].req.region, disp[first]);
    let tail = if es[first].req.source == CaptureSource::Standard {
        grow(es, disp, order, es[first].req.region, disp[first])
    } else {
        order
    };
    assert(m =~= seq![first] + tail);
    assert forall|p: int| 0 <= p < tail.len() implies 0 <= #[trigger] tail[p] < es.len() && tail[p] != first by {
        assert(order.contains(tail[p]));
        let q = choose|q: int| 0 <= q < order.len() && order[q] == tail[p];
        assert(shares_source(es, flags, now, first, order[q]));
    }
    assert forall|p: int| 0 <= p < m.len() implies 0 <= #[trigger] m[p] < es.len() by {
        if p > 0 {
            assert(m[p] == tail[p - 1]);
        }
    }
    assert forall|p: int, q: int| 0 <= p < q < m.len() implies #[trigger] m[p] != #[trigger] m[q] by {
        assert(m[q] == tail[q - 1]);
        if p > 0 {
            assert(m[p] == tail[p - 1]);
            assert(entry_before(es, now, tail[p - 1], tail[q - 1]));
        }
    }
    lemma_marked_all(es.len(), m);
    lemma_without_len(es, m);
    assert forall|p: int| 0 <= p < round.members@.len() implies exists|k: int| 0 <= k < es.len() && (#[trigger] round.members@[p]).0 == es[k].req by {
        assert(round.members@[p].0 == es[m[p]].req);
    }
}

/// Finishing a round answers or queues again each of its steps, once: the answers and the
/// change waits that go on are together as many as the steps.
pub proof fn each_step_is_answered_or_waits_again(steps: Seq<Step>, flags: Seq<bool>, due_by: u64, now: u64)
    requires
        flags.len() == steps.len(),
    ensures
        answered(steps, flags, now).len() + waiting_again(steps, flags, due_by, now).len() == steps.len(),
    decreases steps.len(),
{
    if steps.len() > 0 {
        each_step_is_answered_or_waits_again(steps.drop_last(), flags.drop_last(), due_by, now);
    }
}

/// A sweep answers each cancelled request once and keeps each other one: what stays and what
/// is answered are together as many as were waiting.
pub proof fn a_sweep_answers_or_keeps_each_request(es: Seq<Entry>, flags: Seq<bool>)
    ensures
        without(es, flagged(flags)).len() + answers_of(es, flagged(flags)).len() == es.len(),
    decreases es.len(),
{
    if es.len() > 0 {
        a_sweep_answers_or_keeps_each_request(es.drop_last(), flags);
    }
}

} // verus!
