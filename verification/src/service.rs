//! What the text-read service is asked and hands back: a read's request, a finished job and
//! where its time went, and the pixels a job holds between its two stages; what reads of a
//! snapshot are charged; and the clock that tells a recogniser that hangs from one that is
//! merely busy.
use std::sync::Arc;

use vstd::prelude::*;

use crate::sched::{SameRequest, Ticket};
use crate::snap_queue::{CaptureSource, Frame};
use crate::text::{decimal, decimal_text, joined};
use crate::types::{empty_rect, rect_area, rect_intersect, Reading, Rect, Status};
use vstd::string::StringExecFns;

verus! {

/// What one read asks for, `L` being the language request. Two reads that ask for the same
/// thing before the first is photographed share one capture and one recognition.
#[derive(Clone, Debug, PartialEq, Eq)]
pub struct Spec<L> {
    pub regions: Vec<Rect>,
    pub lang: L,
    pub source: CaptureSource,
}

impl<L: SameRequest> SameRequest for Spec<L> {
    /// The same regions, in the same order, the same language request and the same source.
    open spec fn same_as(&self, other: &Self) -> bool {
        self.regions@ == other.regions@ && self.lang.same_as(&other.lang) && self.source == other.source
    }

    fn same(&self, other: &Self) -> (r: bool) {
        if self.regions.len() != other.regions.len() {
            return false;
        }
        let mut i: usize = 0;
        while i < self.regions.len()
            invariant
                i <= self.regions@.len(),
                self.regions@.len() == other.regions@.len(),
                forall|k: int| 0 <= k < i ==> self.regions@[k] == other.regions@[k],
            decreases self.regions@.len() - i,
        {
            if self.regions[i] != other.regions[i] {
                return false;
            }
            i += 1;
        }
        proof {
            assert(self.regions@ =~= other.regions@);
        }
        self.lang.same(&other.lang) && self.source == other.source
    }
}

/// A finished job, handed to the event loop: one reading per region, for every ticket.
pub struct Done<L> {
    pub tickets: Vec<Ticket>,
    pub readings: Vec<Reading>,
    /// The language request that could not be met, when that is why the readings failed.
    pub lang_error: Option<(L, String)>,
    pub timings: Timings,
}

/// Where a job's time went, in milliseconds.
#[derive(Clone, Copy, Debug, Default)]
pub struct Timings {
    /// From the call until its picture was being taken.
    pub before_capture: u64,
    pub capture: u64,
    /// From the picture until recognition began.
    pub before_recognition: u64,
    pub recognition: u64,
}

impl Timings {
    /// The whole time, from the call to the end of recognition.
    pub fn total(&self) -> (t: u64)
        requires
            self.before_capture + self.capture + self.before_recognition + self.recognition <= u64::MAX,
        ensures
            t == self.before_capture + self.capture + self.before_recognition + self.recognition,
    {
        self.before_capture + self.capture + self.before_recognition + self.recognition
    }
}

/// The pixels a job holds between its two stages.
pub enum Pic<S> {
    /// What the capture stage took, in the platform's shape.
    Shot(S),
    /// A snapshot the module handed the read, with nothing captured.
    Frame(Arc<Frame>),
}

/// The area of `frame` that the regions cover, counting a pixel once for each region over it.
pub open spec fn covered(frame: Rect, regions: Seq<Rect>) -> int
    decreases regions.len(),
{
    if regions.len() == 0 {
        0
    } else {
        covered(frame, regions.drop_last()) + match rect_intersect(frame, regions.last()) {
            Some(r) => rect_area(r),
            None => 0,
        }
    }
}

/// The bytes reads of `regions` on a snapshot of `frame` holding `bytes` are charged: the
/// share of the picture they cover, and never more than all of it.
pub open spec fn read_bytes(frame: Rect, bytes: int, regions: Seq<Rect>) -> int {
    let whole = if rect_area(frame) > 1 { rect_area(frame) } else { 1 };
    let part = if covered(frame, regions) < whole { covered(frame, regions) } else { whole };
    bytes * part / whole
}

proof fn lemma_area_bound(r: Rect)
    ensures
        0 <= rect_area(r) <= 0x4000_0000_0000_0000,
{
    if rect_area(r) != 0 {
        assert(0 < r.w * r.h <= 0x8000_0000 * 0x8000_0000) by (nonlinear_arith)
            requires
                0 < r.w <= 0x8000_0000,
                0 < r.h <= 0x8000_0000,
        ;
    }
}

/// What reads of `regions` on a snapshot of `frame` that holds `bytes` bytes are charged:
/// the share of the snapshot they cover, so that reads of one snapshot hold its pixels once,
/// not once each — and never more than all of it.
pub fn snapshot_read_bytes(frame: &Rect, bytes: usize, regions: &Vec<Rect>) -> (r: usize)
    ensures
        r == read_bytes(*frame, bytes as int, regions@),
        r <= bytes,
{
    let a = frame.area();
    let whole: u128 = if a > 1 { a as u128 } else { 1 };
    let mut sum: u128 = 0;
    let mut i: usize = 0;
    while i < regions.len()
        invariant
            i <= regions@.len(),
            sum == covered(*frame, regions@.take(i as int)),
            sum <= i * 0x4000_0000_0000_0000,
        decreases regions@.len() - i,
    {
        let ghost before = regions@.take(i as int);
        proof {
            assert(regions@.take(i + 1).drop_last() =~= before);
            assert(regions@.take(i + 1).last() == regions@[i as int]);
        }
        match frame.intersect(&regions[i]) {
            Some(r) => {
                let ar = r.area();
                proof {
                    lemma_area_bound(r);
                    assert(i * 0x4000_0000_0000_0000 <= 0xffff_ffff_ffff_ffff * 0x4000_0000_0000_0000)
                        by (nonlinear_arith)
                        requires
                            i <= 0xffff_ffff_ffff_ffff,
                    ;
                }
                sum = sum + ar as u128;
            },
            None => {},
        }
        i += 1;
    }
    proof {
        assert(regions@.take(regions@.len() as int) =~= regions@);
    }
    let part: u128 = if sum < whole { sum } else { whole };
    proof {
        lemma_area_bound(*frame);
        assert(bytes * part <= bytes * whole) by (nonlinear_arith)
            requires
                part <= whole,
        ;
        assert(bytes * part <= 0xffff_ffff_ffff_ffff * 0x4000_0000_0000_0000) by (nonlinear_arith)
            requires
                bytes <= 0xffff_ffff_ffff_ffff,
                part <= 0x4000_0000_0000_0000,
        ;
        assert((bytes * part) / (whole as int) <= bytes) by (nonlinear_arith)
            requires
                part <= whole,
                whole >= 1,
                bytes >= 0,
        ;
    }
    let r = (bytes as u128 * part) / whole;
    r as usize
}

/// When the running recognition last answered (or began), and whether the hang that followed
/// has been reported. No recognition running: `answered_at` is `None`.
#[derive(Clone, Copy, Debug)]
pub struct HangClock {
    pub answered_at: Option<u64>,
    pub said: bool,
}

/// A refusal while the recogniser hangs.
pub struct HangRefusal {
    /// How long no region has come back, in milliseconds.
    pub for_ms: u64,
    /// The first refusal of this hang: the one to report.
    pub first: bool,
    /// What the refused read is answered.
    pub why: String,
}

/// What a read refused while the recogniser hangs is told, `secs` into the hang.
pub open spec fn hang_text(secs: nat) -> Seq<char> {
    "the text recogniser has not answered a region for "@ + decimal(secs) + " s"@
}

/// How long since `since`, in milliseconds, and no less than zero.
pub open spec fn elapsed(now: u64, since: u64) -> u64 {
    if now > since {
        (now - since) as u64
    } else {
        0
    }
}

/// How long the recognition has not answered, when that is a hang: no region for `hang_ms`.
pub open spec fn hanging_for(c: HangClock, hang_ms: u64, now: u64) -> Option<u64> {
    match c.answered_at {
        Some(s) => if elapsed(now, s) >= hang_ms {
            Some(elapsed(now, s))
        } else {
            None
        },
        None => None,
    }
}

/// The clock once the recognition answered at `now`: it runs on from `now`, or stops when the
/// recognition finished; a reported hang is over either way.
pub open spec fn after_answer(c: HangClock, now: u64, still_running: bool) -> HangClock {
    HangClock { answered_at: if still_running { Some(now) } else { None }, said: false }
}

impl HangClock {
    /// No recognition running.
    pub fn new() -> (c: HangClock)
        ensures
            c.answered_at is None,
            !c.said,
    {
        HangClock { answered_at: None, said: false }
    }

    /// A recognition begins at `now`.
    pub fn started(&mut self, now: u64)
        ensures
            final(self).answered_at == Some(now),
            final(self).said == old(self).said,
    {
        self.answered_at = Some(now);
    }

    /// The running recognition answered a region at `now`, or finished. When a hang had been
    /// reported, the answer is how long it lasted, to report that it is over.
    pub fn answered(&mut self, now: u64, still_running: bool) -> (over: Option<u64>)
        ensures
            *final(self) == after_answer(*old(self), now, still_running),
            over == (if old(self).said {
                Some(
                    match old(self).answered_at {
                        Some(s) => elapsed(now, s),
                        None => 0,
                    },
                )
            } else {
                None
            }),
    {
        let since = self.answered_at;
        self.answered_at = if still_running { Some(now) } else { None };
        let over = if self.said {
            Some(
                match since {
                    Some(s) => if now > s {
                        now - s
                    } else {
                        0
                    },
                    None => 0,
                },
            )
        } else {
            None
        };
        self.said = false;
        over
    }

    /// A recognition that has answered no region for `hang_ms` refuses new work at once, with
    /// the reason, rather than letting the queue fill behind it. The first refusal of a hang
    /// is marked, to be reported once.
    pub fn refusal(&mut self, hang_ms: u64, now: u64) -> (r: Option<HangRefusal>)
        ensures
            final(self).answered_at == old(self).answered_at,
            match hanging_for(*old(self), hang_ms, now) {
                None => r is None && final(self).said == old(self).said,
                Some(f) => r matches Some(x) && x.for_ms == f && x.first == !old(self).said
                    && x.why@ == hang_text((f / 1000) as nat) && final(self).said,
            },
    {
        let since = match self.answered_at {
            Some(s) => s,
            None => return None,
        };
        let for_ms = if now > since {
            now - since
        } else {
            0
        };
        if for_ms < hang_ms {
            return None;
        }
        let first = !self.said;
        self.said = true;
        let head = joined("the text recogniser has not answered a region for ", decimal_text(for_ms / 1000).as_str());
        let why = joined(head.as_str(), " s");
        Some(HangRefusal { for_ms, first, why })
    }
}

/// A long job that keeps answering is no hang: once the recognition answers a region, no read
/// is refused for as long as the next answer is less than `hang_ms` away.
pub proof fn answering_keeps_a_long_job_from_hanging(c: HangClock, at: u64, later: u64, hang_ms: u64)
    requires
        elapsed(later, at) < hang_ms,
    ensures
        hanging_for(after_answer(c, at, true), hang_ms, later) is None,
{
}

/// A recognition that no longer runs is never a hang.
pub proof fn a_finished_recognition_never_hangs(c: HangClock, at: u64, later: u64, hang_ms: u64)
    ensures
        hanging_for(after_answer(c, at, false), hang_ms, later) is None,
{
}

/// What a read is answered when the recogniser failed inside the application.
pub const RECOGNISER_FAILED: &'static str = "the text recogniser failed inside the application; the log has the details";

/// What an empty region is answered.
pub const EMPTY_REGION: &'static str = "empty region: x2 must be greater than x1 and y2 greater than y1";

/// Whether `rd` is a failed reading of `rect`, saying `why`, for the language tag `lang`.
pub open spec fn failed_reading(rd: Reading, rect: Rect, why: Seq<char>, lang: Seq<char>) -> bool {
    &&& rd.rect == rect
    &&& rd.status == Status::Failed
    &&& rd.text@ == Seq::<char>::empty()
    &&& rd.rows@.len() == 0
    &&& rd.words@.len() == 0
    &&& rd.lang@ == lang
    &&& rd.error matches Some(e) && e@ == why
}

/// Every region answered as failed, saying `why`.
pub open spec fn all_failed(rs: Seq<Reading>, regions: Seq<Rect>, why: Seq<char>) -> bool {
    rs.len() == regions.len() && forall|k: int| 0 <= k < regions.len() ==> failed_reading(#[trigger] rs[k], regions[k], why, Seq::empty())
}

fn failed_all(regions: &Vec<Rect>, why: &str) -> (r: Vec<Reading>)
    ensures
        all_failed(r@, regions@, why@),
{
    let mut r: Vec<Reading> = Vec::new();
    let mut k: usize = 0;
    while k < regions.len()
        invariant
            k <= regions@.len(),
            r@.len() == k,
            forall|j: int| 0 <= j < k ==> failed_reading(#[trigger] r@[j], regions@[j], why@, Seq::empty()),
        decreases regions@.len() - k,
    {
        r.push(Reading::failed(regions[k], <String as StringExecFns>::from_str(why)));
        k += 1;
    }
    r
}

/// One job's readings, whatever happened: every region is answered. In the order the
/// original service asks: a platform with no recogniser (`no_recogniser`, why) fails every
/// region; so does a job whose pixels could not be had, and one whose language request cannot
/// be met — that one also hands back why, to be reported; a recognition that failed inside
/// the application (`answers` of `None`) fails every region too. Otherwise each region gets
/// the pipeline's reading of it (`answers`, one a region), except an empty region, which is
/// answered as a mistake in the call, for the language `tag`.
pub fn job_readings(
    regions: &Vec<Rect>,
    no_recogniser: Option<String>,
    pixels: Result<(), String>,
    tag: Result<String, String>,
    answers: Option<Vec<Reading>>,
) -> (r: (Vec<Reading>, Option<String>))
    requires
        answers matches Some(a) ==> a@.len() == regions@.len(),
    ensures
        r.0@.len() == regions@.len(),
        match (no_recogniser, pixels, tag, answers) {
            (Some(w), _, _, _) => all_failed(r.0@, regions@, w@) && r.1 is None,
            (None, Err(w), _, _) => all_failed(r.0@, regions@, w@) && r.1 is None,
            (None, Ok(()), Err(w), _) => all_failed(r.0@, regions@, w@) && r.1 == Some(w),
            (None, Ok(()), Ok(_), None) => all_failed(r.0@, regions@, RECOGNISER_FAILED@) && r.1 is None,
            (None, Ok(()), Ok(t), Some(a)) => r.1 is None && forall|k: int|
                0 <= k < regions@.len() ==> if empty_rect(regions@[k]) {
                    failed_reading(#[trigger] r.0@[k], regions@[k], EMPTY_REGION@, t@)
                } else {
                    r.0@[k] == a@[k]
                },
        },
{
    match no_recogniser {
        Some(w) => {
            return (failed_all(regions, w.as_str()), None);
        },
        None => {},
    }
    match pixels {
        Err(w) => {
            return (failed_all(regions, w.as_str()), None);
        },
        Ok(()) => {},
    }
    let t = match tag {
        Err(w) => {
            let rs = failed_all(regions, w.as_str());
            return (rs, Some(w));
        },
        Ok(t) => t,
    };
    let mut a = match answers {
        None => {
            return (failed_all(regions, RECOGNISER_FAILED), None);
        },
        Some(a) => a,
    };
    let ghost all = a@;
    let mut out: Vec<Reading> = Vec::new();
    let mut k: usize = 0;
    while k < regions.len()
        invariant
            k <= regions@.len(),
            all.len() == regions@.len(),
            a@ == all.skip(k as int),
            out@.len() == k,
            forall|j: int|
                0 <= j < k ==> if empty_rect(regions@[j]) {
                    failed_reading(#[trigger] out@[j], regions@[j], EMPTY_REGION@, t@)
                } else {
                    out@[j] == all[j]
                },
        decreases regions@.len() - k,
    {
        let ghost before = a@;
        let got = a.remove(0);
        proof {
            assert(before[0] == all[k as int]);
            assert(a@ =~= all.skip(k + 1));
        }
        let r = regions[k];
        if r.is_empty() {
            let mut rd = Reading::failed(r, <String as StringExecFns>::from_str(EMPTY_REGION));
            rd.lang = t.clone();
            out.push(rd);
        } else {
            out.push(got);
        }
        k += 1;
    }
    (out, None)
}

} // verus!
