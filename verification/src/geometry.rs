//! Axis-aligned rectangles and the containment/overlap tests the pipeline
//! culls and hit-tests with.
//!
//! All tests use open-interval semantics: a point lies in a rectangle only
//! strictly between its edges, and two rectangles overlap only if their
//! intersection has positive area. A zero-area rectangle therefore contains
//! no point and overlaps nothing.

use vstd::prelude::*;

verus! {

/// An axis-aligned rectangle. Well-formed rectangles have non-negative
/// width and height; [`Rect::new`] clamps malformed extents to zero.
#[derive(Clone, Copy, Debug, PartialEq, Eq, Structural)]
pub struct Rect {
    pub x: i32,
    pub y: i32,
    pub width: i32,
    pub height: i32,
}

impl Rect {
    /// Non-negative extents; every rectangle the pipeline works with
    /// satisfies this.
    pub open spec fn wf(self) -> bool {
        self.width >= 0 && self.height >= 0
    }

    pub open spec fn spec_right(self) -> int {
        self.x + self.width
    }

    pub open spec fn spec_bottom(self) -> int {
        self.y + self.height
    }

    /// The point lies strictly inside the rectangle (open interval on both
    /// axes). False for every point when the rectangle has zero area.
    pub open spec fn spec_contains_point(self, px: int, py: int) -> bool {
        self.x < px < self.spec_right() && self.y < py < self.spec_bottom()
    }

    /// The two rectangles share a region of positive area: on each axis the
    /// larger of the two low edges lies strictly below the smaller of the
    /// two high edges.
    pub open spec fn spec_overlaps(self, other: Rect) -> bool {
        let lo_x = if self.x >= other.x { self.x as int } else { other.x as int };
        let hi_x = if self.spec_right() <= other.spec_right() {
            self.spec_right()
        } else {
            other.spec_right()
        };
        let lo_y = if self.y >= other.y { self.y as int } else { other.y as int };
        let hi_y = if self.spec_bottom() <= other.spec_bottom() {
            self.spec_bottom()
        } else {
            other.spec_bottom()
        };
        lo_x < hi_x && lo_y < hi_y
    }

    /// Builds a rectangle, clamping a negative width or height to zero.
    pub fn new(x: i32, y: i32, width: i32, height: i32) -> (r: Rect)
        ensures
            r.wf(),
            r.x == x && r.y == y,
            r.width == if width >= 0 { width } else { 0 },
            r.height == if height >= 0 { height } else { 0 },
    {
        Rect {
            x,
            y,
            width: if width >= 0 { width } else { 0 },
            height: if height >= 0 { height } else { 0 },
        }
    }

    /// Open-interval point containment test.
    pub fn contains_point(&self, px: i32, py: i32) -> (r: bool)
        ensures
            r == self.spec_contains_point(px as int, py as int),
    {
        let x2: i64 = self.x as i64 + self.width as i64;
        let y2: i64 = self.y as i64 + self.height as i64;
        (self.x as i64) < (px as i64) && (px as i64) < x2
            && (self.y as i64) < (py as i64) && (py as i64) < y2
    }

    /// Positive-area overlap test; `!a.overlaps(b)` is the strict "outside"
    /// test culling uses.
    pub fn overlaps(&self, other: &Rect) -> (r: bool)
        ensures
            r == self.spec_overlaps(*other),
    {
        let self_right: i64 = self.x as i64 + self.width as i64;
        let self_bottom: i64 = self.y as i64 + self.height as i64;
        let other_right: i64 = other.x as i64 + other.width as i64;
        let other_bottom: i64 = other.y as i64 + other.height as i64;
        let lo_x: i64 = if self.x >= other.x { self.x as i64 } else { other.x as i64 };
        let hi_x: i64 = if self_right <= other_right { self_right } else { other_right };
        let lo_y: i64 = if self.y >= other.y { self.y as i64 } else { other.y as i64 };
        let hi_y: i64 = if self_bottom <= other_bottom { self_bottom } else { other_bottom };
        lo_x < hi_x && lo_y < hi_y
    }
}

/// A zero-area rectangle contains no point.
pub proof fn lemma_zero_area_contains_nothing(r: Rect, px: int, py: int)
    requires
        r.width == 0 || r.height == 0,
    ensures
        !r.spec_contains_point(px, py),
{
}

} // verus!
