//! What a read is made of: the rectangle, the priority it runs at, the engine's answer per
//! region, and the `Reading` a module is handed.
use vstd::prelude::*;

verus! {

/// A screen rectangle: top-left corner and size, in the platform's screen units. `w` or `h` of
/// 0 (or less) is an empty region.
#[derive(Clone, Copy, Debug, PartialEq, Eq, Structural, Hash, Default)]
pub struct Rect {
    pub x: i32,
    pub y: i32,
    pub w: i32,
    pub h: i32,
}

/// Whether `r` holds nothing to read.
pub open spec fn empty_rect(r: Rect) -> bool {
    r.w <= 0 || r.h <= 0
}

/// The area of `r` in pixels: 0 for an empty one.
pub open spec fn rect_area(r: Rect) -> int {
    if empty_rect(r) {
        0
    } else {
        r.w * r.h
    }
}

/// `a` clamped into the range of an `i32`.
pub open spec fn clamp_i32(a: int) -> int {
    if a < i32::MIN {
        i32::MIN as int
    } else if a > i32::MAX {
        i32::MAX as int
    } else {
        a
    }
}

pub open spec fn min_int(a: int, b: int) -> int {
    if a <= b {
        a
    } else {
        b
    }
}

pub open spec fn max_int(a: int, b: int) -> int {
    if a >= b {
        a
    } else {
        b
    }
}

/// The smallest rectangle holding both, its size capped at `i32::MAX`; an empty one does not
/// widen the other.
pub open spec fn rect_union(a: Rect, b: Rect) -> Rect {
    if empty_rect(a) {
        b
    } else if empty_rect(b) {
        a
    } else {
        let x = min_int(a.x as int, b.x as int);
        let y = min_int(a.y as int, b.y as int);
        let right = max_int(a.x + a.w, b.x + b.w);
        let bottom = max_int(a.y + a.h, b.y + b.h);
        Rect {
            x: x as i32,
            y: y as i32,
            w: min_int(right - x, i32::MAX as int) as i32,
            h: min_int(bottom - y, i32::MAX as int) as i32,
        }
    }
}

/// Whether `outer` holds every pixel of `inner`; an empty `inner` lies inside anything.
pub open spec fn rect_contains(outer: Rect, inner: Rect) -> bool {
    empty_rect(inner) || (!empty_rect(outer) && outer.x <= inner.x && outer.y <= inner.y
        && inner.x + inner.w <= outer.x + outer.w && inner.y + inner.h <= outer.y + outer.h)
}

/// The part two rectangles share, when they share a pixel.
pub open spec fn rect_intersect(a: Rect, b: Rect) -> Option<Rect> {
    let x = max_int(a.x as int, b.x as int);
    let y = max_int(a.y as int, b.y as int);
    let right = min_int(a.x + a.w, b.x + b.w);
    let bottom = min_int(a.y + a.h, b.y + b.h);
    if empty_rect(a) || empty_rect(b) || right <= x || bottom <= y {
        None
    } else {
        Some(Rect { x: x as i32, y: y as i32, w: (right - x) as i32, h: (bottom - y) as i32 })
    }
}

fn min_i64(a: i64, b: i64) -> (r: i64)
    ensures
        r == min_int(a as int, b as int),
{
    if a <= b {
        a
    } else {
        b
    }
}

fn max_i64(a: i64, b: i64) -> (r: i64)
    ensures
        r == max_int(a as int, b as int),
{
    if a >= b {
        a
    } else {
        b
    }
}

impl Rect {
    pub fn new(x: i32, y: i32, w: i32, h: i32) -> (r: Rect)
        ensures
            r == (Rect { x, y, w, h }),
    {
        Rect { x, y, w, h }
    }

    /// Whether there is anything inside it to read.
    pub fn is_empty(&self) -> (r: bool)
        ensures
            r == empty_rect(*self),
    {
        self.w <= 0 || self.h <= 0
    }

    /// Its area in pixels, in 64 bits: two 40 000-pixel sides do not fit in an `i32`.
    pub fn area(&self) -> (a: i64)
        ensures
            a == rect_area(*self),
            a >= 0,
    {
        if self.is_empty() {
            0
        } else {
            let w = self.w as i64;
            let h = self.h as i64;
            assert(0 < w * h <= 0x7fff_ffff * 0x7fff_ffff) by (nonlinear_arith)
                requires
                    0 < w <= 0x7fff_ffff,
                    0 < h <= 0x7fff_ffff,
            ;
            w * h
        }
    }

    /// The right edge, saturated at the range of an `i32`.
    pub fn right(&self) -> (r: i32)
        ensures
            r == clamp_i32(self.x + self.w),
    {
        let s = self.x as i64 + self.w as i64;
        if s > i32::MAX as i64 {
            i32::MAX
        } else if s < i32::MIN as i64 {
            i32::MIN
        } else {
            s as i32
        }
    }

    /// The bottom edge, saturated at the range of an `i32`.
    pub fn bottom(&self) -> (r: i32)
        ensures
            r == clamp_i32(self.y + self.h),
    {
        let s = self.y as i64 + self.h as i64;
        if s > i32::MAX as i64 {
            i32::MAX
        } else if s < i32::MIN as i64 {
            i32::MIN
        } else {
            s as i32
        }
    }

    /// The smallest rectangle holding both. An empty one does not widen the other. Worked out
    /// in 64 bits, with the size capped at `i32::MAX`.
    pub fn union(&self, other: &Rect) -> (u: Rect)
        ensures
            u == rect_union(*self, *other),
    {
        if self.is_empty() {
            return *other;
        }
        if other.is_empty() {
            return *self;
        }
        let x = min_i64(self.x as i64, other.x as i64);
        let y = min_i64(self.y as i64, other.y as i64);
        let right = max_i64(self.x as i64 + self.w as i64, other.x as i64 + other.w as i64);
        let bottom = max_i64(self.y as i64 + self.h as i64, other.y as i64 + other.h as i64);
        let w = min_i64(right - x, i32::MAX as i64);
        let h = min_i64(bottom - y, i32::MAX as i64);
        Rect { x: x as i32, y: y as i32, w: w as i32, h: h as i32 }
    }

    /// Whether `inner` lies wholly inside this rectangle.
    pub fn contains(&self, inner: &Rect) -> (r: bool)
        ensures
            r == rect_contains(*self, *inner),
    {
        inner.is_empty() || (!self.is_empty() && self.x <= inner.x && self.y <= inner.y
            && inner.x as i64 + inner.w as i64 <= self.x as i64 + self.w as i64
            && inner.y as i64 + inner.h as i64 <= self.y as i64 + self.h as i64)
    }

    /// The part both share, or `None` when they share no pixel.
    pub fn intersect(&self, other: &Rect) -> (r: Option<Rect>)
        ensures
            r == rect_intersect(*self, *other),
    {
        let x = max_i64(self.x as i64, other.x as i64);
        let y = max_i64(self.y as i64, other.y as i64);
        let right = min_i64(self.x as i64 + self.w as i64, other.x as i64 + other.w as i64);
        let bottom = min_i64(self.y as i64 + self.h as i64, other.y as i64 + other.h as i64);
        if self.is_empty() || other.is_empty() || right <= x || bottom <= y {
            None
        } else {
            Some(Rect { x: x as i32, y: y as i32, w: (right - x) as i32, h: (bottom - y) as i32 })
        }
    }

    /// The tuple the backend's capture and OCR calls take.
    pub fn tuple(&self) -> (t: (i32, i32, i32, i32))
        ensures
            t == (self.x, self.y, self.w, self.h),
    {
        (self.x, self.y, self.w, self.h)
    }

    pub fn from_tuple(t: (i32, i32, i32, i32)) -> (r: Rect)
        ensures
            r == (Rect { x: t.0, y: t.1, w: t.2, h: t.3 }),
    {
        Rect::new(t.0, t.1, t.2, t.3)
    }
}

/// Which lane a read waits in.
#[derive(Clone, Copy, Debug, PartialEq, Eq, Structural, PartialOrd, Ord, Hash, Default)]
pub enum Priority {
    /// Polls, and everything a module does while loading.
    #[default]
    Background,
    /// Somebody is waiting for the answer.
    Interactive,
}

/// The higher of two priorities: interactive over background.
pub open spec fn prio_max(a: Priority, b: Priority) -> Priority {
    if a == Priority::Interactive || b == Priority::Interactive {
        Priority::Interactive
    } else {
        Priority::Background
    }
}

pub fn priority_max(a: Priority, b: Priority) -> (r: Priority)
    ensures
        r == prio_max(a, b),
{
    match (a, b) {
        (Priority::Interactive, _) => Priority::Interactive,
        (_, Priority::Interactive) => Priority::Interactive,
        _ => Priority::Background,
    }
}

/// How a read ended, per region.
#[derive(Clone, Copy, Debug, PartialEq, Eq, Structural)]
pub enum Status {
    /// Something was read.
    Text,
    /// The region has nothing drawn in it; no recogniser was asked.
    Blank,
    /// The recognisers ran and read nothing.
    Nothing,
    /// It could not be read at all; `error` says why.
    Failed,
    /// A newer read with the same key was asked for before this one was recognised.
    Stale,
}

/// The name the documentation gives each status.
pub open spec fn status_name(s: Status) -> Seq<char> {
    match s {
        Status::Text => "text"@,
        Status::Blank => "blank"@,
        Status::Nothing => "none"@,
        Status::Failed => "failed"@,
        Status::Stale => "stale"@,
    }
}

impl Status {
    pub fn as_str(self) -> (r: &'static str)
        ensures
            r@ == status_name(self),
    {
        match self {
            Status::Text => "text",
            Status::Blank => "blank",
            Status::Nothing => "none",
            Status::Failed => "failed",
            Status::Stale => "stale",
        }
    }
}

/// A word as a module sees it: absolute screen coordinates. `approx` marks a box the host
/// worked out from the text's length rather than one an engine located.
#[derive(Clone, Debug, PartialEq, Eq)]
pub struct Word {
    pub text: String,
    pub x: i32,
    pub y: i32,
    pub w: i32,
    pub h: i32,
    pub approx: bool,
}

/// One row of text: the engine lines that share a baseline, left to right.
#[derive(Clone, Debug, PartialEq, Eq)]
pub struct Row {
    pub text: String,
    pub rect: Rect,
    pub words: Vec<Word>,
}

/// One region's answer, the shape `host.ocr.read` hands a callback.
#[derive(Clone, Debug, PartialEq, Eq)]
pub struct Reading {
    /// The region as it was read, absolute.
    pub rect: Rect,
    pub status: Status,
    /// The rows joined with "\n"; empty unless `status` is `Text`.
    pub text: String,
    pub rows: Vec<Row>,
    /// Every row's words in reading order.
    pub words: Vec<Word>,
    /// The language tag the engine was asked for; empty when the read never reached one.
    pub lang: String,
    /// Why, when `status` is `Failed`.
    pub error: Option<String>,
}

impl Reading {
    /// A reading that says nothing but `status` and why.
    pub fn outcome(rect: Rect, status: Status, error: Option<String>) -> (r: Reading)
        ensures
            r.rect == rect,
            r.status == status,
            r.text@ == Seq::<char>::empty(),
            r.rows@.len() == 0,
            r.words@.len() == 0,
            r.lang@ == Seq::<char>::empty(),
            r.error == error,
    {
        Reading {
            rect,
            status,
            text: String::new(),
            rows: Vec::new(),
            words: Vec::new(),
            lang: String::new(),
            error,
        }
    }

    /// A failed reading of `rect`, saying why.
    pub fn failed(rect: Rect, error: String) -> (r: Reading)
        ensures
            r.rect == rect,
            r.status == Status::Failed,
            r.text@ == Seq::<char>::empty(),
            r.rows@.len() == 0,
            r.words@.len() == 0,
            r.lang@ == Seq::<char>::empty(),
            r.error == Some(error),
    {
        Reading::outcome(rect, Status::Failed, Some(error))
    }
}

/// A word as an engine located it, relative to the region it read.
#[derive(Clone, Debug, PartialEq, Eq)]
pub struct WordBox {
    pub text: String,
    pub x: i32,
    pub y: i32,
    pub w: i32,
    pub h: i32,
}

/// One line as an engine returned it.
#[derive(Clone, Debug, PartialEq, Eq)]
pub struct EngineLine {
    pub text: String,
    pub words: Vec<WordBox>,
}

/// What the platform's recognisers made of one region, before the host normalises it.
#[derive(Clone, Debug, PartialEq, Eq)]
pub enum EngineOut {
    /// The blank guard answered: nothing drawn, no engine asked.
    Blank,
    /// The system recogniser's lines, region-relative.
    Lines(Vec<EngineLine>),
    /// The fallback recogniser read `text` and located nothing; `content` is the crop it read.
    Fallback { text: String, content: Rect },
    /// It could not be read.
    Failed(String),
}

} // verus!
