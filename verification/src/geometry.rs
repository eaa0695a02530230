//! Rectangles and screens in desktop pixel coordinates.
//!
//! The executable types hold 32-bit coordinates. Contracts are stated over
//! [`Bounds`], the same rectangle with unbounded integer coordinates, so that
//! sums and differences of coordinates mean what they say.

use vstd::prelude::*;

verus! {

/// Windows at most this wide and at most `MIN_HEIGHT` high are not worth arranging.
pub const MIN_WIDTH: i32 = 64;

/// Windows at most this high and at most `MIN_WIDTH` wide are not worth arranging.
pub const MIN_HEIGHT: i32 = 64;

/// Two rectangles are close when each of their four components differs by less than this.
pub const CLOSE_PIXELS: i32 = 4;

/// A rectangle with unbounded integer coordinates: the model of [`Rect`].
pub struct Bounds {
    pub x: int,
    pub y: int,
    pub w: int,
    pub h: int,
}

/// The distance between two integers.
pub open spec fn distance(a: int, b: int) -> int {
    if a >= b {
        a - b
    } else {
        b - a
    }
}

impl Bounds {
    /// The point `(px, py)` lies in the half-open rectangle: on its left and top edge
    /// or inside, but not on its right or bottom edge.
    pub open spec fn contains_point(self, px: int, py: int) -> bool {
        &&& self.x <= px < self.x + self.w
        &&& self.y <= py < self.y + self.h
    }

    /// Every component of `self` is within `CLOSE_PIXELS` (exclusive) of that of `other`.
    pub open spec fn is_close(self, other: Bounds) -> bool {
        &&& distance(self.x, other.x) < CLOSE_PIXELS
        &&& distance(self.y, other.y) < CLOSE_PIXELS
        &&& distance(self.w, other.w) < CLOSE_PIXELS
        &&& distance(self.h, other.h) < CLOSE_PIXELS
    }

    /// All four components can be held in 32 bits.
    pub open spec fn representable(self) -> bool {
        &&& i32::MIN <= self.x <= i32::MAX
        &&& i32::MIN <= self.y <= i32::MAX
        &&& i32::MIN <= self.w <= i32::MAX
        &&& i32::MIN <= self.h <= i32::MAX
    }

    /// The rectangle moved by `(dx, dy)`, its size unchanged.
    pub open spec fn moved_by(self, dx: int, dy: int) -> Bounds {
        Bounds { x: self.x + dx, y: self.y + dy, w: self.w, h: self.h }
    }

    /// The rectangle with these components, where they are representable.
    pub open spec fn to_rect(self) -> Rect
        recommends
            self.representable(),
    {
        Rect { x: self.x as i32, y: self.y as i32, w: self.w as i32, h: self.h as i32 }
    }
}

/// A rectangle in desktop pixel coordinates: top-left origin, Y growing downward.
#[derive(Debug, Clone, Copy, PartialEq, Eq, Structural)]
pub struct Rect {
    pub x: i32,
    pub y: i32,
    pub w: i32,
    pub h: i32,
}

impl View for Rect {
    type V = Bounds;

    open spec fn view(&self) -> Bounds {
        Bounds { x: self.x as int, y: self.y as int, w: self.w as int, h: self.h as int }
    }
}

impl Default for Rect {
    fn default() -> (r: Rect)
        ensures
            r == (Rect { x: 0, y: 0, w: 0, h: 0 }),
    {
        Rect { x: 0, y: 0, w: 0, h: 0 }
    }
}

impl Rect {
    /// Width and height are not negative.
    pub open spec fn wf(self) -> bool {
        self.w >= 0 && self.h >= 0
    }

    /// The rectangle is at most `MIN_WIDTH` wide and at most `MIN_HEIGHT` high.
    pub open spec fn spec_is_small(self) -> bool {
        self.w <= MIN_WIDTH && self.h <= MIN_HEIGHT
    }

    /// The top-left corner of the rectangle: `x` and `y`.
    pub fn origin(&self) -> (corner: (i32, i32))
        ensures
            corner == (self.x, self.y),
    {
        (self.x, self.y)
    }

    /// The extent of the rectangle: width and height.
    pub fn size(&self) -> (extent: (i32, i32))
        ensures
            extent == (self.w, self.h),
    {
        (self.w, self.h)
    }

    /// Whether a window with these bounds is too small to be arranged.
    pub fn is_small(&self) -> (small: bool)
        ensures
            small == self.spec_is_small(),
    {
        self.w <= MIN_WIDTH && self.h <= MIN_HEIGHT
    }

    /// Whether the top-left corner of `inner` lies in `self`. Only the corner counts:
    /// a rectangle that straddles an edge of `self` belongs where its corner is.
    pub fn contains_origin(&self, inner: &Rect) -> (inside: bool)
        ensures
            inside == self@.contains_point(inner.x as int, inner.y as int),
    {
        let right: i64 = self.x as i64 + self.w as i64;
        let bottom: i64 = self.y as i64 + self.h as i64;
        inner.x >= self.x && (inner.x as i64) < right && inner.y >= self.y && (inner.y as i64)
            < bottom
    }

    /// Whether `self` and `other` agree to within a few pixels in position and size.
    pub fn is_close(&self, other: &Rect) -> (close: bool)
        ensures
            close == self@.is_close(other@),
    {
        let dx: i64 = self.x as i64 - other.x as i64;
        let dy: i64 = self.y as i64 - other.y as i64;
        let dw: i64 = self.w as i64 - other.w as i64;
        let dh: i64 = self.h as i64 - other.h as i64;
        let limit: i64 = CLOSE_PIXELS as i64;
        -limit < dx && dx < limit && -limit < dy && dy < limit && -limit < dw && dw < limit
            && -limit < dh && dh < limit
    }
}

/// A display: the handle the display system gave it and its frame on the desktop.
#[derive(Debug, Clone, Copy, PartialEq, Eq, Structural)]
pub struct ScreenInfo {
    pub frame: Rect,
    pub screen_id: u32,
}

impl Default for ScreenInfo {
    fn default() -> (s: ScreenInfo)
        ensures
            s == (ScreenInfo { frame: Rect { x: 0, y: 0, w: 0, h: 0 }, screen_id: 0 }),
    {
        ScreenInfo { frame: Rect { x: 0, y: 0, w: 0, h: 0 }, screen_id: 0 }
    }
}

/// A rectangle is the one that its model stands for.
pub proof fn lemma_rect_of_view(r: Rect)
    ensures
        r@.representable(),
        r@.to_rect() == r,
{
}

/// Every rectangle is close to itself.
pub proof fn lemma_is_close_reflexive(r: Bounds)
    ensures
        r.is_close(r),
{
}

/// Closeness does not depend on which rectangle is named first.
pub proof fn lemma_is_close_symmetric(a: Bounds, b: Bounds)
    ensures
        a.is_close(b) == b.is_close(a),
{
}

/// Two rectangles are close exactly when no component differs by four pixels or more:
/// a difference of three is close, a difference of four is not.
pub proof fn lemma_is_close_threshold(a: Bounds, b: Bounds)
    ensures
        a.is_close(b) <==> (-3 <= a.x - b.x <= 3 && -3 <= a.y - b.y <= 3 && -3 <= a.w - b.w <= 3
            && -3 <= a.h - b.h <= 3),
{
}

/// Moving a rectangle sideways by `shift` pixels keeps it close to where it was
/// exactly when the shift is at most three pixels either way. A shift of five
/// pixels therefore always takes it out of reach.
pub proof fn lemma_is_close_shifted(r: Bounds, shift: int)
    ensures
        r.is_close(r.moved_by(shift, 0)) <==> -3 <= shift <= 3,
        !r.is_close(r.moved_by(5, 0)),
        r.is_close(r.moved_by(3, 0)),
        !r.is_close(r.moved_by(4, 0)),
{
}

} // verus!
