use osap_host::region::{corners, ScreenRect, Unresolved};
use osap_host::snap_queue::{Frame, FrameVia, Platform};
use osap_host::snapshot::{
    clip, enough_watched, resolve_watch, WATCH_MISS, estimate, fits_budgets, gc_kbytes, inside, reservation_for, too_few_watched, NOT_INSIDE, NO_OVERLAP,
    SNAPSHOT_BUDGET_PER_VM, SNAPSHOT_BUDGET_PROCESS,
};
use osap_host::types::Rect;

fn test_frame(x: i32, y: i32, w: i32, h: i32) -> Frame {
    Frame { rect: Rect::new(x, y, w, h), via: FrameVia::Gdi, input_epoch: 0, taken: 0 }
}

#[test]
fn gc_kbytes_never_passes_the_heap() {
    assert_eq!(gc_kbytes(4 << 20, 100 << 20), 4096, "the reservation, when the heap is larger");
    assert_eq!(gc_kbytes(4 << 20, 1 << 20), 1024, "at most the heap");
    assert_eq!(gc_kbytes(100, 1 << 20), 0, "less than a kilobyte steps nothing");
    assert_eq!(gc_kbytes(usize::MAX, usize::MAX), i32::MAX, "never past what the call takes");
}

#[test]
fn clip_rule_per_call_class() {
    let f = test_frame(100, 50, 640, 480);
    let r = |x, y, w, h| ScreenRect { x, y, w, h };
    assert_eq!(clip(&f, r(0, 0, 200, 100)), Ok(Rect::new(100, 50, 100, 50)), "the part inside");
    assert_eq!(clip(&f, r(200, 100, 10, 10)), Ok(Rect::new(200, 100, 10, 10)));
    assert_eq!(clip(&f, r(0, 0, 50, 50)), Err(NO_OVERLAP.to_string()));
    assert_eq!(clip(&f, r(200, 100, 0, 0)), Err(NO_OVERLAP.to_string()), "an empty region overlaps nothing");
}

#[test]
fn inside_rule_per_call_class() {
    let f = test_frame(100, 50, 640, 480);
    let r = |x, y, w, h| ScreenRect { x, y, w, h };
    assert_eq!(inside(&f, r(100, 50, 640, 480)), Ok(Rect::new(100, 50, 640, 480)));
    assert_eq!(inside(&f, r(0, 0, 200, 100)), Err(NOT_INSIDE.to_string()), "not cut, refused");
    assert_eq!(inside(&f, r(739, 529, 1, 1)), Ok(Rect::new(739, 529, 1, 1)));
    assert_eq!(inside(&f, r(739, 529, 2, 1)), Err(NOT_INSIDE.to_string()));
}

#[test]
fn a_snapshot_is_reserved_at_its_pixels_and_a_change_wait_at_two_more_copies() {
    let r = Rect::new(0, 0, 100, 100);
    assert_eq!(estimate(r, Platform::Other), 40_000);
    assert_eq!(estimate(r, Platform::MacOs), 200_000);
    assert_eq!(reservation_for(r, false, Platform::Other), 40_000);
    assert_eq!(reservation_for(r, true, Platform::Other), 120_000, "3 x w * h * 4 on Windows");
    assert_eq!(reservation_for(r, true, Platform::MacOs), 280_000, "7 x on macOS");
    assert_eq!(estimate(Rect::new(0, 0, -5, 10), Platform::Other), 0);
}

#[test]
fn the_budgets_hold_a_reservation_or_refuse_it() {
    assert!(fits_budgets(0, 0, SNAPSHOT_BUDGET_PER_VM));
    assert!(!fits_budgets(1, 0, SNAPSHOT_BUDGET_PER_VM));
    assert!(!fits_budgets(0, SNAPSHOT_BUDGET_PROCESS, 1));
    assert!(!fits_budgets(usize::MAX, 0, 1), "a sum past the integer range saturates, and is refused");
}

#[test]
fn a_change_wait_watching_too_little_says_how_much() {
    assert_eq!(
        too_few_watched(12, 100),
        "at the window's current size the change wait watches 12 pixels, fewer than its minPixels 100"
    );
}

#[test]
fn corners_are_checked_by_one_rule() {
    assert_eq!(corners("opts.region", 10, 20, 30, 60), Ok(ScreenRect { x: 10, y: 20, w: 20, h: 40 }));
    assert_eq!(
        corners("opts.region", 30, 20, 10, 60).unwrap_err(),
        "opts.region { 30, 20, 10, 60 } is empty or turned around: x2 must be greater than x1, and y2 than y1"
    );
    assert_eq!(
        corners("entry 2", -3_000_000_000, 0, 1, 1).unwrap_err(),
        "entry 2.x1 is -3000000000, outside the screen's coordinate range"
    );
    assert_eq!(
        corners("r", -2_000_000_000, 0, 2_000_000_000, 1).unwrap_err(),
        "r { -2000000000, 0, 2000000000, 1 } is wider or higher than the screen's coordinate range"
    );
    assert_eq!(Unresolved::EmptyClient { w: 0, h: 7 }.text(), "the window's client area is empty (0x7)");
    assert_eq!(Unresolved::OutOfRange.text(), "the region lies outside the screen's coordinate range");
}

#[test]
fn watch_regions_are_kept_refused_or_answered_by_form() {
    let region = Rect::new(0, 0, 100, 100);
    let inside = Rect::new(10, 10, 5, 5);
    let outside = Rect::new(500, 500, 5, 5);
    // Corners inside the region are kept.
    let (r, kept, all) = resolve_watch(Ok(region), true, &vec![(Ok(inside), true)]).expect("kept");
    assert_eq!(r, Ok(region));
    assert_eq!(kept, vec![inside]);
    assert!(all);
    // The module's own corners that miss its own corners raise.
    assert_eq!(
        resolve_watch(Ok(region), true, &vec![(Ok(inside), true), (Ok(outside), true)]),
        Err("host.screen.snapshotAsync: opts.change.watch[2] { 500, 500, 505, 505 } does not overlap the region".to_string())
    );
    // A window's watch region that misses is answered, not raised.
    let (r, kept, all) = resolve_watch(Ok(region), true, &vec![(Ok(outside), false)]).expect("answered");
    assert_eq!(r, Err(WATCH_MISS.to_string()));
    assert!(kept.is_empty());
    assert!(!all);
    // A watch region that cannot be resolved answers with its reason.
    let (r, _, _) = resolve_watch(Ok(region), false, &vec![(Err("the window is gone".to_string()), false)]).expect("answered");
    assert_eq!(r, Err("the window is gone".to_string()));
    // Too few pixels watched: raised for corners, answered for a window.
    assert_eq!(
        enough_watched(Ok(region), true, false, 25, 100),
        Err("host.screen.snapshotAsync: opts.change.minPixels is 100, more than the 25 pixel(s) the wait watches (opts.change.watch cut to the region, a shared pixel once), so it could never see a change".to_string())
    );
    assert_eq!(
        enough_watched(Ok(region), false, true, 25, 100),
        Ok(Err("at the window's current size the change wait watches 25 pixels, fewer than its minPixels 100".to_string()))
    );
    assert_eq!(enough_watched(Ok(region), true, true, 10_000, 100), Ok(Ok(region)));
}
