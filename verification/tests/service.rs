use osap_host::service::{job_readings, snapshot_read_bytes, HangClock, Spec, Timings, EMPTY_REGION, RECOGNISER_FAILED};
use osap_host::types::{Reading, Status};
use osap_host::snap_queue::CaptureSource;
use osap_host::types::Rect;

/// Five regions 100 ms apart against a hang bound of 150 ms are a long job, not a hang; one
/// region that takes 400 ms is, and the refusal says so — reported once, and its end once.
#[test]
fn a_hang_is_a_region_that_does_not_come_back() {
    let mut c = HangClock::new();
    assert!(c.refusal(150, 1_000).is_none(), "nothing running, nothing hangs");
    c.started(1_000);
    for k in 1..=5u64 {
        assert!(c.refusal(150, 1_000 + 100 * k - 1).is_none());
        assert_eq!(c.answered(1_000 + 100 * k, true), None);
    }
    assert!(c.refusal(150, 1_640).is_none());
    let first = c.refusal(150, 1_900).expect("400 ms without an answer is a hang");
    assert_eq!(first.for_ms, 400);
    assert!(first.first);
    assert_eq!(first.why, "the text recogniser has not answered a region for 0 s");
    let again = c.refusal(150, 4_500).expect("still hanging");
    assert!(!again.first, "reported once");
    assert_eq!(again.why, "the text recogniser has not answered a region for 3 s");
    assert_eq!(c.answered(4_600, false), Some(3_100));
    assert!(c.refusal(150, 9_000).is_none(), "a finished recognition does not hang");
    assert_eq!(c.answered(9_100, false), None, "the end of a hang is reported once");
}

#[test]
fn reads_of_one_snapshot_are_charged_its_pixels_once() {
    let frame = Rect::new(0, 0, 100, 100);
    // A quarter of it.
    assert_eq!(snapshot_read_bytes(&frame, 40_000, &vec![Rect::new(0, 0, 50, 50)]), 10_000);
    // Half of a region lies outside the picture and is not charged.
    assert_eq!(snapshot_read_bytes(&frame, 40_000, &vec![Rect::new(50, 50, 100, 100)]), 10_000);
    // Overlapping regions together never cost more than the whole.
    let many = vec![Rect::new(0, 0, 100, 100), Rect::new(0, 0, 100, 100), Rect::new(10, 10, 5, 5)];
    assert_eq!(snapshot_read_bytes(&frame, 40_000, &many), 40_000);
    // Nothing to read costs nothing; an empty picture is charged as one pixel.
    assert_eq!(snapshot_read_bytes(&frame, 40_000, &vec![]), 0);
    assert_eq!(snapshot_read_bytes(&Rect::new(0, 0, 0, 0), 7, &vec![Rect::new(0, 0, 5, 5)]), 0);
}

#[test]
fn a_jobs_time_adds_up() {
    let t = Timings { before_capture: 1, capture: 20, before_recognition: 300, recognition: 4_000 };
    assert_eq!(t.total(), 4_321);
}

#[test]
fn reads_that_ask_the_same_thing_have_one_spec() {
    let a = Spec { regions: vec![Rect::new(0, 0, 10, 10)], lang: "en-US".to_string(), source: CaptureSource::Standard };
    let b = a.clone();
    assert_eq!(a, b);
    let c = Spec { lang: "de-DE".to_string(), ..b.clone() };
    assert_ne!(a, c);
}

fn said(rd: &Reading) -> Option<&str> {
    rd.error.as_deref()
}

#[test]
fn every_region_of_a_job_is_answered() {
    let regions = vec![Rect::new(0, 0, 10, 10), Rect::new(5, 5, 0, 4)];
    let (rs, lang) = job_readings(&regions, Some("no recogniser here".to_string()), Ok(()), Ok("en".into()), None);
    assert_eq!(rs.len(), 2);
    assert!(rs.iter().all(|r| r.status == Status::Failed && said(r) == Some("no recogniser here")));
    assert!(lang.is_none());
    let (rs, _) = job_readings(&regions, None, Err("the capture failed".into()), Ok("en".into()), None);
    assert_eq!(said(&rs[1]), Some("the capture failed"));
    let (rs, lang) = job_readings(&regions, None, Ok(()), Err("no language xx".into()), None);
    assert_eq!(said(&rs[0]), Some("no language xx"));
    assert_eq!(lang, Some("no language xx".to_string()));
    let (rs, _) = job_readings(&regions, None, Ok(()), Ok("en".into()), None);
    assert_eq!(said(&rs[0]), Some(RECOGNISER_FAILED));
    let mut read = Reading::failed(regions[0], "placeholder".into());
    read.status = Status::Text;
    read.text = "hello".into();
    read.error = None;
    let other = Reading::failed(regions[1], "unused".into());
    let (rs, lang) = job_readings(&regions, None, Ok(()), Ok("en".into()), Some(vec![read, other]));
    assert!(lang.is_none());
    assert_eq!(rs[0].text, "hello");
    assert_eq!(said(&rs[1]), Some(EMPTY_REGION));
    assert_eq!(rs[1].lang, "en");
}
