//! Regions in screen coordinates: a rectangle as every capture takes it, a window's client
//! area, and the corners a module writes, checked by one rule.
use vstd::prelude::*;

use crate::text::{decimal, joined, signed_decimal, signed_decimal_text};
use vstd::string::StringExecFns;

verus! {

/// A window's client area in screen coordinates.
#[derive(Clone, Copy, Debug, PartialEq, Eq, Structural)]
pub struct Client {
    pub x: i64,
    pub y: i64,
    pub w: i64,
    pub h: i64,
}

/// A rectangle in screen coordinates, `(x, y, w, h)` as every capture takes it.
#[derive(Clone, Copy, Debug, PartialEq, Eq, Structural)]
pub struct ScreenRect {
    pub x: i32,
    pub y: i32,
    pub w: i32,
    pub h: i32,
}

/// Why a window region has no rectangle this time: runtime conditions, not mistakes.
#[derive(Clone, Copy, Debug, PartialEq, Eq, Structural)]
pub enum Unresolved {
    /// The client area has no width or no height.
    EmptyClient { w: i64, h: i64 },
    /// The rectangle does not fit the screen's coordinate range.
    OutOfRange,
}

/// What a module is told for an unresolved region.
pub open spec fn unresolved_text(u: Unresolved) -> Seq<char> {
    match u {
        Unresolved::EmptyClient { w, h } => "the window's client area is empty ("@ + signed_decimal(w as int) + "x"@
            + signed_decimal(h as int) + ")"@,
        Unresolved::OutOfRange => "the region lies outside the screen's coordinate range"@,
    }
}

impl Unresolved {
    /// What a module is told.
    pub fn text(&self) -> (r: String)
        ensures
            r@ == unresolved_text(*self),
    {
        match self {
            Unresolved::EmptyClient { w, h } => {
                let mut s = joined("the window's client area is empty (", signed_decimal_text(*w).as_str());
                s.append("x");
                s.append(signed_decimal_text(*h).as_str());
                s.append(")");
                s
            },
            Unresolved::OutOfRange => <String as StringExecFns>::from_str(
                "the region lies outside the screen's coordinate range",
            ),
        }
    }
}

pub open spec fn in_i32(v: i64) -> bool {
    i32::MIN <= v <= i32::MAX
}

/// `{ x1, y1, x2, y2 }`, as the messages about corners quote them.
pub open spec fn corners_quoted(what: Seq<char>, x1: i64, y1: i64, x2: i64, y2: i64) -> Seq<char> {
    what + " { "@ + signed_decimal(x1 as int) + ", "@ + signed_decimal(y1 as int) + ", "@ + signed_decimal(x2 as int) + ", "@
        + signed_decimal(y2 as int) + " }"@
}

/// The rule for corners a module writes: each inside the screen's coordinate range (the first
/// that is not is named), `x2` greater than `x1` and `y2` than `y1`, and the width and height
/// inside that range too.
pub open spec fn corners_result(what: Seq<char>, x1: i64, y1: i64, x2: i64, y2: i64) -> Result<ScreenRect, Seq<char>> {
    if !in_i32(x1) {
        Err(what + ".x1"@ + " is "@ + signed_decimal(x1 as int) + ", outside the screen's coordinate range"@)
    } else if !in_i32(y1) {
        Err(what + ".y1"@ + " is "@ + signed_decimal(y1 as int) + ", outside the screen's coordinate range"@)
    } else if !in_i32(x2) {
        Err(what + ".x2"@ + " is "@ + signed_decimal(x2 as int) + ", outside the screen's coordinate range"@)
    } else if !in_i32(y2) {
        Err(what + ".y2"@ + " is "@ + signed_decimal(y2 as int) + ", outside the screen's coordinate range"@)
    } else if x2 <= x1 || y2 <= y1 {
        Err(corners_quoted(what, x1, y1, x2, y2) + " is empty or turned around: x2 must be greater than x1, and y2 than y1"@)
    } else if x2 - x1 > i32::MAX || y2 - y1 > i32::MAX {
        Err(corners_quoted(what, x1, y1, x2, y2) + " is wider or higher than the screen's coordinate range"@)
    } else {
        Ok(ScreenRect { x: x1 as i32, y: y1 as i32, w: (x2 - x1) as i32, h: (y2 - y1) as i32 })
    }
}

/// Corners are accepted exactly when each lies in the screen's coordinate range, `x2` is
/// greater than `x1`, `y2` greater than `y1`, and the width and height fit that range; an
/// accepted rectangle starts at `(x1, y1)`, ends at `(x2, y2)` exclusive, and is never empty or
/// turned around.
pub proof fn a_rectangle_from_corners_spans_them(what: Seq<char>, x1: i64, y1: i64, x2: i64, y2: i64)
    ensures
        corners_result(what, x1, y1, x2, y2) matches Ok(r) ==> r.w > 0 && r.h > 0 && r.x == x1 && r.y == y1 && r.x + r.w
            == x2 && r.y + r.h == y2,
        corners_result(what, x1, y1, x2, y2) is Ok <==> (i32::MIN <= x1 <= i32::MAX && i32::MIN <= y1 <= i32::MAX
            && i32::MIN <= x2 <= i32::MAX && i32::MIN <= y2 <= i32::MAX && x1 < x2 && y1 < y2 && x2 - x1 <= i32::MAX
            && y2 - y1 <= i32::MAX),
{
}

fn out_of_range(what: &str, name: &str, v: i64) -> (r: String)
    ensures
        r@ == what@ + name@ + " is "@ + signed_decimal(v as int) + ", outside the screen's coordinate range"@,
{
    let mut s = joined(what, name);
    s.append(" is ");
    s.append(signed_decimal_text(v).as_str());
    s.append(", outside the screen's coordinate range");
    s
}

fn quoted(what: &str, x1: i64, y1: i64, x2: i64, y2: i64) -> (r: String)
    ensures
        r@ == corners_quoted(what@, x1, y1, x2, y2),
{
    let mut s = joined(what, " { ");
    s.append(signed_decimal_text(x1).as_str());
    s.append(", ");
    s.append(signed_decimal_text(y1).as_str());
    s.append(", ");
    s.append(signed_decimal_text(x2).as_str());
    s.append(", ");
    s.append(signed_decimal_text(y2).as_str());
    s.append(" }");
    s
}

fn fits(v: i64) -> (r: bool)
    ensures
        r == in_i32(v),
{
    i32::MIN as i64 <= v && v <= i32::MAX as i64
}

/// Corners `{ x1, y1, x2, y2 }`, `x2` and `y2` exclusive, as a rectangle, or the mistake in
/// them: corners are written by the module, so an empty or turned-around rectangle is a
/// mistake in the call. `what` names the region in the message.
pub fn corners(what: &str, x1: i64, y1: i64, x2: i64, y2: i64) -> (r: Result<ScreenRect, String>)
    ensures
        match (r, corners_result(what@, x1, y1, x2, y2)) {
            (Ok(a), Ok(b)) => a == b,
            (Err(a), Err(b)) => a@ == b,
            _ => false,
        },
        r matches Ok(a) ==> a.w > 0 && a.h > 0 && a.x == x1 && a.y == y1 && a.x + a.w == x2 && a.y + a.h == y2,
        (x2 <= x1 || y2 <= y1) ==> r is Err,
        (in_i32(x1) && in_i32(y1) && in_i32(x2) && in_i32(y2) && x1 < x2 && y1 < y2 && x2 - x1 <= i32::MAX && y2
            - y1 <= i32::MAX) ==> r is Ok,
{
    proof {
        a_rectangle_from_corners_spans_them(what@, x1, y1, x2, y2);
    }
    if !fits(x1) {
        return Err(out_of_range(what, ".x1", x1));
    }
    if !fits(y1) {
        return Err(out_of_range(what, ".y1", y1));
    }
    if !fits(x2) {
        return Err(out_of_range(what, ".x2", x2));
    }
    if !fits(y2) {
        return Err(out_of_range(what, ".y2", y2));
    }
    if x2 <= x1 || y2 <= y1 {
        let mut s = quoted(what, x1, y1, x2, y2);
        s.append(" is empty or turned around: x2 must be greater than x1, and y2 than y1");
        return Err(s);
    }
    if x2 - x1 > i32::MAX as i64 || y2 - y1 > i32::MAX as i64 {
        let mut s = quoted(what, x1, y1, x2, y2);
        s.append(" is wider or higher than the screen's coordinate range");
        return Err(s);
    }
    Ok(ScreenRect { x: x1 as i32, y: y1 as i32, w: (x2 - x1) as i32, h: (y2 - y1) as i32 })
}

} // verus!
