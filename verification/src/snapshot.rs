//! The rules of `host.screen.snapshot`'s pictures that are plain numbers: what a snapshot is
//! reserved at before it exists, how far the collector is stepped for it, whether it fits the
//! budgets, and how a region is read against a snapshot's edges.
pub mod pending;

use vstd::prelude::*;

use crate::region::ScreenRect;
use crate::snap_queue::{Frame, Platform};
use crate::text::{joined, signed_decimal, signed_decimal_text, decimal, decimal_text};
use crate::types::{clamp_i32, rect_area, rect_contains, rect_intersect, Rect};
use vstd::string::StringExecFns;

verus! {

/// What one module VM's snapshots may hold between them.
pub const SNAPSHOT_BUDGET_PER_VM: usize = 134_217_728;
/// What every module's snapshots together may hold.
pub const SNAPSHOT_BUDGET_PROCESS: usize = 536_870_912;
/// The most points one `host.screen.pixels` call reads.
pub const MAX_POINTS: usize = 4096;

/// The reasons a read of a snapshot answers with when the region or point misses it.
pub const NOT_INSIDE: &'static str = "the region is not inside the snapshot";
pub const POINT_NOT_INSIDE: &'static str = "the point is not inside the snapshot";
pub const NO_OVERLAP: &'static str = "the region does not overlap the snapshot";
/// What a call handed a released snapshot raises with, after its own name.
pub const RELEASED: &'static str = "the snapshot was released";
/// How every reason a window region's size at run time gives begins.
pub const AT_WINDOW_SIZE: &'static str = "at the window's current size ";
/// What a cancelled request is answered.
pub const CANCELLED: &'static str = "the request was cancelled";

pub open spec fn sat(v: int, max: int) -> int {
    if v > max {
        max
    } else {
        v
    }
}

/// How far to step the collector, in kilobytes, for a reservation of `bytes` in a state using
/// `used`: as much as was reserved, never more than the heap, never past what the call takes.
pub open spec fn gc_step(bytes: usize, used: usize) -> int {
    sat((if bytes < used { bytes } else { used }) as int / 1024, i32::MAX as int)
}

pub fn gc_kbytes(bytes: usize, used: usize) -> (r: i32)
    ensures
        r == gc_step(bytes, used),
{
    let m = if bytes < used {
        bytes
    } else {
        used
    };
    let k = m / 1024;
    if k > i32::MAX as usize {
        i32::MAX
    } else {
        k as i32
    }
}

/// Whether `bytes` more fit this VM's budget, of which `vm` is taken, and the application's,
/// of which `process` is taken (each sum saturating).
pub open spec fn fits(vm: usize, process: usize, bytes: usize) -> bool {
    sat(vm + bytes, usize::MAX as int) <= SNAPSHOT_BUDGET_PER_VM && sat(process + bytes, usize::MAX as int)
        <= SNAPSHOT_BUDGET_PROCESS
}

pub fn fits_budgets(vm: usize, process: usize, bytes: usize) -> (r: bool)
    ensures
        r == fits(vm, process, bytes),
{
    vm.saturating_add(bytes) <= SNAPSHOT_BUDGET_PER_VM && process.saturating_add(bytes) <= SNAPSHOT_BUDGET_PROCESS
}

fn sat_mul(a: usize, b: usize) -> (r: usize)
    ensures
        r == sat(a * b, usize::MAX as int),
{
    match a.checked_mul(b) {
        Some(v) => v,
        None => usize::MAX,
    }
}

/// How many times `w * h * 4` a snapshot is reserved at before it exists: on macOS a
/// snapshot keeps the backing-store image beside its point-sized pixels, four times as many
/// pixels on a Retina display.
pub open spec fn estimate_factor(platform: Platform) -> usize {
    match platform {
        Platform::MacOs => 5,
        Platform::Other => 1,
    }
}

/// What a snapshot of `r` is reserved at before it exists.
pub open spec fn estimate_of(r: Rect, platform: Platform) -> usize {
    sat(sat((rect_area(r) as usize) * 4, usize::MAX as int) * estimate_factor(platform), usize::MAX as int) as usize
}

pub fn estimate(r: Rect, platform: Platform) -> (n: usize)
    ensures
        n == estimate_of(r, platform),
{
    let factor: usize = match platform {
        Platform::MacOs => 5,
        Platform::Other => 1,
    };
    sat_mul(sat_mul(r.area() as usize, 4), factor)
}

/// What a snapshot request is reserved at: the estimate, and for a change wait, which also
/// holds two copies of the region's point-sized pixels to compare with, twice `w * h * 4`
/// more.
pub open spec fn reservation_of(r: Rect, change: bool, platform: Platform) -> usize {
    let pixels = sat((rect_area(r) as usize) * 4, usize::MAX as int);
    sat(estimate_of(r, platform) + if change { sat(pixels * 2, usize::MAX as int) } else { 0 }, usize::MAX as int) as usize
}

pub fn reservation_for(r: Rect, change: bool, platform: Platform) -> (n: usize)
    ensures
        n == reservation_of(r, change, platform),
{
    let pixels = sat_mul(r.area() as usize, 4);
    estimate(r, platform).saturating_add(
        if change {
            sat_mul(pixels, 2)
        } else {
            0
        },
    )
}

/// `r` as a rectangle.
pub open spec fn rect_of(r: ScreenRect) -> Rect {
    Rect { x: r.x, y: r.y, w: r.w, h: r.h }
}

/// The clip rule: the part of `r` inside the snapshot, or [`NO_OVERLAP`].
pub fn clip(frame: &Frame, r: ScreenRect) -> (out: Result<Rect, String>)
    ensures
        match rect_intersect(frame.rect, rect_of(r)) {
            Some(c) => out == Ok::<Rect, String>(c),
            None => out matches Err(why) && why@ == NO_OVERLAP@,
        },
{
    match frame.rect.intersect(&Rect::new(r.x, r.y, r.w, r.h)) {
        Some(c) => Ok(c),
        None => Err(<String as StringExecFns>::from_str(NO_OVERLAP)),
    }
}

/// The inside rule: `r` when it lies wholly inside the snapshot, or [`NOT_INSIDE`].
pub fn inside(frame: &Frame, r: ScreenRect) -> (out: Result<Rect, String>)
    ensures
        rect_contains(frame.rect, rect_of(r)) ==> out == Ok::<Rect, String>(rect_of(r)),
        !rect_contains(frame.rect, rect_of(r)) ==> (out matches Err(why) && why@ == NOT_INSIDE@),
{
    let c = Rect::new(r.x, r.y, r.w, r.h);
    if frame.rect.contains(&c) {
        Ok(c)
    } else {
        Err(<String as StringExecFns>::from_str(NOT_INSIDE))
    }
}

/// What a change wait is answered when, at a window's size, it watches fewer than
/// `minPixels`.
pub open spec fn too_few_text(n: i64, min: u32) -> Seq<char> {
    AT_WINDOW_SIZE@ + "the change wait watches "@ + signed_decimal(n as int) + " pixels, fewer than its minPixels "@
        + decimal(min as nat)
}

pub fn too_few_watched(n: i64, min: u32) -> (r: String)
    ensures
        r@ == too_few_text(n, min),
{
    let mut s = joined(AT_WINDOW_SIZE, "the change wait watches ");
    s.append(signed_decimal_text(n).as_str());
    s.append(" pixels, fewer than its minPixels ");
    s.append(decimal_text(min as u64).as_str());
    s
}

/// What a change wait that watches nothing of its region is answered.
pub const WATCH_MISS: &'static str = "a watch region does not overlap the region";

/// A result whose error is text, as the model speaks of it.
pub open spec fn rect_or_text(r: Result<Rect, String>) -> Result<Rect, Seq<char>> {
    match r {
        Ok(x) => Ok(x),
        Err(e) => Err(e@),
    }
}

/// What raising for the `i`-th watch region `w` of the module's own corners, that misses the
/// region of its own corners, says.
pub open spec fn no_overlap_text(i: nat, w: Rect) -> Seq<char> {
    "host.screen.snapshotAsync: opts.change.watch["@ + decimal(i) + "] { "@ + signed_decimal(w.x as int) + ", "@
        + signed_decimal(w.y as int) + ", "@ + signed_decimal(clamp_i32(w.x + w.w)) + ", "@ + signed_decimal(
        clamp_i32(w.y + w.h),
    ) + " } does not overlap the region"@
}

/// The watch regions of a change wait from the `i`-th on, against the region `rect` (or why
/// it has none): each kept when it overlaps the region; one that cannot be resolved, or that
/// misses a region it is not both corners with, leaves the region answered instead of read;
/// one of the module's own corners that misses a region of its own corners raises. Also
/// whether every region so far was given as corners.
pub open spec fn watch_from(
    rect: Result<Rect, Seq<char>>,
    region_corners: bool,
    all_corners: bool,
    kept: Seq<Rect>,
    ws: Seq<(Result<Rect, Seq<char>>, bool)>,
    i: int,
) -> Result<(Result<Rect, Seq<char>>, Seq<Rect>, bool), Seq<char>>
    decreases ws.len() - i,
{
    if i < 0 || i >= ws.len() {
        Ok((rect, kept, all_corners))
    } else {
        let c = ws[i].1;
        let all = all_corners && c;
        match ws[i].0 {
            Err(u) => watch_from(
                if rect is Ok {
                    Err(u)
                } else {
                    rect
                },
                region_corners,
                all,
                kept,
                ws,
                i + 1,
            ),
            Ok(w) => match rect {
                Ok(r) => match rect_intersect(r, w) {
                    Some(_) => watch_from(rect, region_corners, all, kept.push(w), ws, i + 1),
                    None => if c && region_corners {
                        Err(no_overlap_text((i + 1) as nat, w))
                    } else {
                        watch_from(Err(WATCH_MISS@), region_corners, all, kept, ws, i + 1)
                    },
                },
                Err(_) => watch_from(rect, region_corners, all, kept, ws, i + 1),
            },
        }
    }
}

/// A watch region given as `w` resolved, and overlaps the region `r0`.
pub open spec fn overlapping_watch(r0: Rect, w: (Result<Rect, Seq<char>>, bool)) -> bool {
    match w.0 {
        Ok(x) => rect_intersect(r0, x) is Some,
        Err(_) => false,
    }
}

/// Once a region is answered instead of read, it stays answered for every watch region after.
proof fn lemma_answered_stays(e: Seq<char>, rc: bool, all: bool, kept: Seq<Rect>, ws: Seq<(Result<Rect, Seq<char>>, bool)>, i: int)
    requires
        0 <= i <= ws.len(),
    ensures
        watch_from(Err(e), rc, all, kept, ws, i) matches Ok((x, _, _)) && x == Err::<Rect, Seq<char>>(e),
    decreases ws.len() - i,
{
    if i < ws.len() {
        lemma_answered_stays(e, rc, all && ws[i].1, kept, ws, i + 1);
    }
}

proof fn lemma_read_keeps_every_watch(
    r0: Rect,
    rc: bool,
    all: bool,
    kept: Seq<Rect>,
    ws: Seq<(Result<Rect, Seq<char>>, bool)>,
    i: int,
)
    requires
        0 <= i <= ws.len(),
    ensures
        match watch_from(Ok(r0), rc, all, kept, ws, i) {
            Ok((Ok(x), k2, a2)) => {
                &&& x == r0
                &&& k2.len() == kept.len() + ws.len() - i
                &&& forall|j: int| 0 <= j < kept.len() ==> k2[j] == kept[j]
                &&& forall|k: int|
                    i <= k < ws.len() ==> (#[trigger] ws[k]).0 == Ok::<Rect, Seq<char>>(k2[kept.len() + k - i])
                        && rect_intersect(r0, k2[kept.len() + k - i]) is Some
                &&& a2 == (all && forall|k: int| i <= k < ws.len() ==> (#[trigger] ws[k]).1)
            },
            _ => true,
        },
        (forall|k: int| i <= k < ws.len() ==> overlapping_watch(r0, #[trigger] ws[k])) ==> watch_from(Ok(r0), rc, all, kept, ws, i)
            matches Ok((Ok(_), _, _)),
    decreases ws.len() - i,
{
    if i < ws.len() {
        let all2 = all && ws[i].1;
        match ws[i].0 {
            Err(u) => {
                lemma_answered_stays(u, rc, all2, kept, ws, i + 1);
            },
            Ok(w) => match rect_intersect(r0, w) {
                Some(_) => {
                    lemma_read_keeps_every_watch(r0, rc, all2, kept.push(w), ws, i + 1);
                    let res = watch_from(Ok(r0), rc, all, kept, ws, i);
                    if let Ok((Ok(x), k2, a2)) = res {
                        assert(k2[kept.len() as int] == kept.push(w)[kept.len() as int]);
                        assert forall|k: int| i <= k < ws.len() implies (#[trigger] ws[k]).0 == Ok::<Rect, Seq<char>>(
                            k2[kept.len() + k - i],
                        ) && rect_intersect(r0, k2[kept.len() + k - i]) is Some by {
                            if k > i {
                                assert(ws[k].0 == Ok::<Rect, Seq<char>>(k2[kept.push(w).len() + k - (i + 1)]));
                            }
                        }
                        assert(a2 == (all && forall|k: int| i <= k < ws.len() ==> (#[trigger] ws[k]).1)) by {
                            if a2 {
                                assert forall|k: int| i <= k < ws.len() implies (#[trigger] ws[k]).1 by {
                                    if k > i {
                                        assert(ws[k].1);
                                    }
                                }
                            }
                            if all && forall|k: int| i <= k < ws.len() ==> (#[trigger] ws[k]).1 {
                                assert(ws[i].1);
                                assert forall|k: int| i + 1 <= k < ws.len() implies (#[trigger] ws[k]).1 by {
                                    assert(ws[k].1);
                                }
                            }
                        }
                    }
                },
                None => {
                    if !(ws[i].1 && rc) {
                        lemma_answered_stays(WATCH_MISS@, rc, all2, kept, ws, i + 1);
                    }
                },
            },
        }
    }
}

/// A change wait's region that resolved is read, not answered, exactly when every watch
/// region resolves and overlaps it. It is then read unchanged, and every watch region is
/// kept, in the order given; the wait counts as given by corners exactly when the region and
/// every watch region were.
pub proof fn every_overlapping_watch_region_is_kept(r0: Rect, region_corners: bool, ws: Seq<(Result<Rect, Seq<char>>, bool)>)
    ensures
        match watch_from(Ok(r0), region_corners, region_corners, Seq::empty(), ws, 0) {
            Ok((Ok(x), kept, all)) => {
                &&& x == r0
                &&& kept.len() == ws.len()
                &&& forall|k: int|
                    0 <= k < ws.len() ==> (#[trigger] ws[k]).0 == Ok::<Rect, Seq<char>>(kept[k]) && rect_intersect(r0, kept[k])
                        is Some
                &&& all == (region_corners && forall|k: int| 0 <= k < ws.len() ==> (#[trigger] ws[k]).1)
            },
            _ => true,
        },
        (forall|k: int| 0 <= k < ws.len() ==> overlapping_watch(r0, #[trigger] ws[k])) <==> watch_from(
            Ok(r0),
            region_corners,
            region_corners,
            Seq::empty(),
            ws,
            0,
        ) matches Ok((Ok(_), _, _)),
{
    lemma_read_keeps_every_watch(r0, region_corners, region_corners, Seq::empty(), ws, 0);
    let res = watch_from(Ok(r0), region_corners, region_corners, Seq::empty(), ws, 0);
    if let Ok((Ok(x), kept, all)) = res {
        assert forall|k: int| 0 <= k < ws.len() implies (#[trigger] ws[k]).0 == Ok::<Rect, Seq<char>>(kept[k]) && rect_intersect(
            r0,
            kept[k],
        ) is Some by {
            assert(ws[k].0 == Ok::<Rect, Seq<char>>(kept[0 + k - 0]));
        }
    }
}

pub open spec fn watch_views(ws: Seq<(Result<Rect, String>, bool)>) -> Seq<(Result<Rect, Seq<char>>, bool)> {
    ws.map_values(|w: (Result<Rect, String>, bool)| (rect_or_text(w.0), w.1))
}

proof fn lemma_watch_given(rect: Result<Rect, String>, rc: bool, watch: Seq<(Result<Rect, String>, bool)>)
    ensures
        match (rect, watch_from(rect_or_text(rect), rc, rc, Seq::empty(), watch_views(watch), 0)) {
            (Ok(r0), Ok((Ok(x), kept, all))) => {
                &&& x == r0
                &&& kept.len() == watch.len()
                &&& forall|k: int|
                    0 <= k < watch.len() ==> (#[trigger] watch[k]).0 == Ok::<Rect, String>(kept[k]) && rect_intersect(r0, kept[k])
                        is Some
                &&& all == (rc && forall|k: int| 0 <= k < watch.len() ==> (#[trigger] watch[k]).1)
            },
            _ => true,
        },
        rect is Ok ==> ((forall|k: int|
            0 <= k < watch.len() ==> overlapping_watch(rect->Ok_0, (rect_or_text((#[trigger] watch[k]).0), watch[k].1)))
            <==> watch_from(rect_or_text(rect), rc, rc, Seq::empty(), watch_views(watch), 0) matches Ok((Ok(_), _, _))),
{
    let ws = watch_views(watch);
    if let Ok(r0) = rect {
        every_overlapping_watch_region_is_kept(r0, rc, ws);
        assert forall|k: int| 0 <= k < watch.len() implies ws[k] == (rect_or_text((#[trigger] watch[k]).0), watch[k].1) by {}
        if let Ok((Ok(x), kept, all)) = watch_from(Ok(r0), rc, rc, Seq::empty(), ws, 0) {
            assert forall|k: int| 0 <= k < watch.len() implies (#[trigger] watch[k]).0 == Ok::<Rect, String>(kept[k]) by {
                assert(ws[k].0 == Ok::<Rect, Seq<char>>(kept[k]));
            }
            assert(all == (rc && forall|k: int| 0 <= k < watch.len() ==> (#[trigger] watch[k]).1)) by {
                if rc && forall|k: int| 0 <= k < watch.len() ==> (#[trigger] watch[k]).1 {
                    assert forall|k: int| 0 <= k < ws.len() implies (#[trigger] ws[k]).1 by {
                        assert(watch[k].1);
                    }
                }
                if all {
                    assert forall|k: int| 0 <= k < watch.len() implies (#[trigger] watch[k]).1 by {
                        assert(ws[k].1);
                    }
                }
            }
        }
        if forall|k: int| 0 <= k < watch.len() ==> overlapping_watch(r0, (rect_or_text((#[trigger] watch[k]).0), watch[k].1)) {
            assert forall|k: int| 0 <= k < ws.len() implies overlapping_watch(r0, #[trigger] ws[k]) by {
                assert(overlapping_watch(r0, (rect_or_text(watch[k].0), watch[k].1)));
            }
        }
        if watch_from(Ok(r0), rc, rc, Seq::empty(), ws, 0) matches Ok((Ok(_), _, _)) {
            assert forall|k: int| 0 <= k < watch.len() implies overlapping_watch(r0, (rect_or_text((#[trigger] watch[k]).0), watch[k].1)) by {
                assert(overlapping_watch(r0, ws[k]));
            }
        }
    }
}

/// The watch regions of a change wait against its region `rect` (or why it has none), as
/// `snapshotAsync` reads them: each given as its resolved rectangle or why it could not be
/// resolved, and whether it was given as corners. The answer: the region (or why it is
/// answered, not read), the watch regions kept, and whether the region and every watch region
/// were given as corners — or, raised, a watch region of the module's own corners that misses
/// a region of its own corners.
#[verifier::loop_isolation(false)]
pub fn resolve_watch(rect: Result<Rect, String>, region_is_corners: bool, watch: &Vec<(Result<Rect, String>, bool)>) -> (r: Result<
    (Result<Rect, String>, Vec<Rect>, bool),
    String,
>)
    ensures
        match r {
            Ok((x, kept, all)) => watch_from(rect_or_text(rect), region_is_corners, region_is_corners, Seq::empty(), watch_views(watch@), 0)
                == Ok::<(Result<Rect, Seq<char>>, Seq<Rect>, bool), Seq<char>>((rect_or_text(x), kept@, all)),
            Err(e) => watch_from(rect_or_text(rect), region_is_corners, region_is_corners, Seq::empty(), watch_views(watch@), 0)
                == Err::<(Result<Rect, Seq<char>>, Seq<Rect>, bool), Seq<char>>(e@),
        },
        match (rect, r) {
            (Ok(r0), Ok((Ok(x), kept, all))) => {
                &&& x == r0
                &&& kept@.len() == watch@.len()
                &&& forall|k: int|
                    0 <= k < watch@.len() ==> (#[trigger] watch@[k]).0 == Ok::<Rect, String>(kept@[k]) && rect_intersect(
                        r0,
                        kept@[k],
                    ) is Some
                &&& all == (region_is_corners && forall|k: int| 0 <= k < watch@.len() ==> (#[trigger] watch@[k]).1)
            },
            _ => true,
        },
        rect is Ok ==> ((forall|k: int|
            0 <= k < watch@.len() ==> overlapping_watch(rect->Ok_0, (rect_or_text((#[trigger] watch@[k]).0), watch@[k].1)))
            <==> r matches Ok((Ok(_), _, _))),
{
    proof {
        lemma_watch_given(rect, region_is_corners, watch@);
    }
    let ghost ws = watch_views(watch@);
    let ghost r0 = rect_or_text(rect);
    let ghost whole = watch_from(r0, region_is_corners, region_is_corners, Seq::empty(), ws, 0);
    let mut rect = rect;
    let mut kept: Vec<Rect> = Vec::new();
    let mut all = region_is_corners;
    let mut i: usize = 0;
    while i < watch.len()
        invariant
            i <= watch@.len(),
            ws == watch_views(watch@),
            whole == watch_from(r0, region_is_corners, region_is_corners, Seq::empty(), ws, 0),
            whole == watch_from(rect_or_text(rect), region_is_corners, all, kept@, ws, i as int),
        decreases watch@.len() - i,
    {
        let c = watch[i].1;
        proof {
            assert(ws[i as int] == (rect_or_text(watch@[i as int].0), c));
        }
        let ghost kept0 = kept@;
        match &watch[i].0 {
            Err(u) => {
                if rect.is_ok() {
                    rect = Err(u.clone());
                }
            },
            Ok(w) => {
                let w = *w;
                match &rect {
                    Ok(r) => match r.intersect(&w) {
                        Some(_) => {
                            kept.push(w);
                        },
                        None => {
                            if c && region_is_corners {
                                let mut e = joined("host.screen.snapshotAsync: opts.change.watch[", decimal_text((i + 1) as u64).as_str());
                                e.append("] { ");
                                e.append(signed_decimal_text(w.x as i64).as_str());
                                e.append(", ");
                                e.append(signed_decimal_text(w.y as i64).as_str());
                                e.append(", ");
                                e.append(signed_decimal_text(w.right() as i64).as_str());
                                e.append(", ");
                                e.append(signed_decimal_text(w.bottom() as i64).as_str());
                                e.append(" } does not overlap the region");
                                proof {
                                    assert(rect_or_text(rect) == Ok::<Rect, Seq<char>>(*r));
                                    assert(ws[i as int].0 == Ok::<Rect, Seq<char>>(w));
                                    assert(e@ == no_overlap_text((i + 1) as nat, w));
                                }
                                return Err(e);
                            }
                            rect = Err(<String as StringExecFns>::from_str(WATCH_MISS));
                        },
                    },
                    Err(_) => {},
                }
            },
        }
        all = all && c;
        i += 1;
    }
    Ok((rect, kept, all))
}

/// What the pixel count a change wait watches, `n`, makes of its region `rect` when it is
/// fewer than `min_pixels`, at which no change could ever be seen: with the region and every
/// watch region the module's own corners, a mistake in the call, raised; otherwise the
/// region is answered, not read.
pub open spec fn enough_watched_of(rect: Result<Rect, Seq<char>>, all_corners: bool, watches_all: bool, n: i64, min: u32) -> Result<
    Result<Rect, Seq<char>>,
    Seq<char>,
> {
    if rect is Ok && n < min {
        if all_corners {
            Err(
                "host.screen.snapshotAsync: opts.change.minPixels is "@ + decimal(min as nat) + ", more than the "@
                    + signed_decimal(n as int) + " pixel(s) the wait watches ("@ + (if watches_all {
                    "the whole region"@
                } else {
                    "opts.change.watch cut to the region, a shared pixel once"@
                }) + "), so it could never see a change"@,
            )
        } else {
            Ok(Err(too_few_text(n, min)))
        }
    } else {
        Ok(rect)
    }
}

/// [`enough_watched_of`]: `watches_all` when the wait names no watch region and so watches its
/// whole region; `n` the pixels it watches, each once.
pub fn enough_watched(rect: Result<Rect, String>, all_corners: bool, watches_all: bool, n: i64, min_pixels: u32) -> (r: Result<
    Result<Rect, String>,
    String,
>)
    ensures
        match r {
            Ok(x) => enough_watched_of(rect_or_text(rect), all_corners, watches_all, n, min_pixels) == Ok::<
                Result<Rect, Seq<char>>,
                Seq<char>,
            >(rect_or_text(x)),
            Err(e) => enough_watched_of(rect_or_text(rect), all_corners, watches_all, n, min_pixels) == Err::<
                Result<Rect, Seq<char>>,
                Seq<char>,
            >(e@),
        },
{
    if rect.is_ok() && n < min_pixels as i64 {
        if all_corners {
            let mut e = joined("host.screen.snapshotAsync: opts.change.minPixels is ", decimal_text(min_pixels as u64).as_str());
            e.append(", more than the ");
            e.append(signed_decimal_text(n).as_str());
            e.append(" pixel(s) the wait watches (");
            if watches_all {
                e.append("the whole region");
            } else {
                e.append("opts.change.watch cut to the region, a shared pixel once");
            }
            e.append("), so it could never see a change");
            return Err(e);
        }
        return Ok(Err(too_few_watched(n, min_pixels)));
    }
    Ok(rect)
}

} // verus!
