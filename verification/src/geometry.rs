//! Rectangles on the integer plane and the closed intersection test used by
//! range queries.
//!
//! A card's rectangle is an origin corner `(x, y)` together with a signed
//! width and height `(w, h)`. A negative width or height denotes the same
//! axis-aligned rectangle with its corners given in the opposite order, so
//! the occupied span on the x axis is `[x + w, x]` when `w < 0` and `[x, x + w]`
//! otherwise, and likewise on the y axis. Intersection is closed: rectangles
//! that merely touch on an edge or a corner count as intersecting.

use vstd::prelude::*;

verus! {

/// A point or an extent on the plane, in whole board units.
#[derive(Clone, Copy, PartialEq, Eq, Structural, Debug)]
pub struct Dimmension {
    pub x: i64,
    pub y: i64,
}

/// A query rectangle, given by its minimum and maximum corners.
/// A degenerate rectangle with `min_x == max_x` or `min_y == max_y` is a
/// valid line or point query.
#[derive(Clone, Copy, PartialEq, Eq, Structural, Debug)]
pub struct RangeParams {
    pub min_x: i64,
    pub min_y: i64,
    pub max_x: i64,
    pub max_y: i64,
}

/// The far corner `origin + size` of a rectangle stays representable in
/// an `i64` on both axes. Every stored rectangle satisfies this.
pub open spec fn rect_sums_fit(x: int, y: int, w: int, h: int) -> bool {
    &&& i64::MIN <= x + w <= i64::MAX
    &&& i64::MIN <= y + h <= i64::MAX
}

/// The low end of the span covered by an origin `o` and a signed extent `s`.
pub open spec fn span_lo(o: int, s: int) -> int {
    if s >= 0 {
        o
    } else {
        o + s
    }
}

/// The high end of the span covered by an origin `o` and a signed extent `s`.
pub open spec fn span_hi(o: int, s: int) -> int {
    if s >= 0 {
        o + s
    } else {
        o
    }
}

/// Closed intersection of the rectangle `(x, y, w, h)` with the query
/// rectangle `q`: the two overlap in area, or share a boundary point.
pub open spec fn sect_spec(x: int, y: int, w: int, h: int, q: RangeParams) -> bool {
    &&& span_lo(x, w) <= q.max_x
    &&& q.min_x <= span_hi(x, w)
    &&& span_lo(y, h) <= q.max_y
    &&& q.min_y <= span_hi(y, h)
}

/// Decides the closed intersection test between a card rectangle and a
/// query rectangle.
pub fn rect_intersects_range(x: i64, y: i64, w: i64, h: i64, q: &RangeParams) -> (r: bool)
    requires
        rect_sums_fit(x as int, y as int, w as int, h as int),
    ensures
        r == sect_spec(x as int, y as int, w as int, h as int, *q),
{
    let lx: i64 = if w >= 0 { x } else { x + w };
    let hx: i64 = if w >= 0 { x + w } else { x };
    let ly: i64 = if h >= 0 { y } else { y + h };
    let hy: i64 = if h >= 0 { y + h } else { y };
    lx <= q.max_x && q.min_x <= hx && ly <= q.max_y && q.min_y <= hy
}

} // verus!
