//! Points, sizes and rectangles in whole pixels.
//!
//! The arithmetic is that of `bevy::math`: each operation on a point or a
//! rectangle is handed to the function of `IVec2` or `IRect` that does it.

use bevy::math::{IRect, IVec2};
use vstd::prelude::*;

verus! {

/// A point on the desktop; y grows downwards.
#[derive(Clone, Copy, Debug, PartialEq, Eq, Structural)]
pub struct Origin {
    pub x: i32,
    pub y: i32,
}

/// Width and height.
#[derive(Clone, Copy, Debug, PartialEq, Eq, Structural)]
pub struct Size {
    pub x: i32,
    pub y: i32,
}

/// A rectangle between two corners.
#[derive(Clone, Copy, Debug, PartialEq, Eq, Structural)]
pub struct Rect {
    pub min: Origin,
    pub max: Origin,
}

/// Whether a number is an `i32`.
pub open spec fn fits(n: int) -> bool {
    i32::MIN <= n <= i32::MAX
}

/// The smaller of two numbers.
pub open spec fn smaller(a: i32, b: i32) -> i32 {
    if a <= b {
        a
    } else {
        b
    }
}

/// The larger of two numbers.
pub open spec fn larger(a: i32, b: i32) -> i32 {
    if a <= b {
        b
    } else {
        a
    }
}

impl Origin {
    /// Whether both coordinates stay in range when `d` is taken away.
    pub open spec fn allows_minus(self, d: int) -> bool {
        fits(self.x - d) && fits(self.y - d)
    }

    /// The point that lies `d` to the left and `d` above.
    pub open spec fn minus(self, d: int) -> Origin {
        Origin { x: (self.x - d) as i32, y: (self.y - d) as i32 }
    }

    /// `IVec2 - i32`: takes `d` from each coordinate. The difference is
    /// claimed only where neither coordinate overflows.
    #[verifier::external_body]
    pub(crate) fn less(self, d: i32) -> (r: Origin)
        requires
            self.allows_minus(d as int),
        ensures
            r == self.minus(d as int),
    {
        let p = IVec2::new(self.x, self.y) - d;
        Origin { x: p.x, y: p.y }
    }

    /// `IVec2 + IVec2`: adds the coordinates one by one. The sum is claimed
    /// only where neither coordinate overflows.
    #[verifier::external_body]
    pub(crate) fn plus(self, size: Size) -> (r: Origin)
        requires
            fits(self.x + size.x),
            fits(self.y + size.y),
        ensures
            r.x == self.x + size.x,
            r.y == self.y + size.y,
    {
        let p = IVec2::new(self.x, self.y) + IVec2::new(size.x, size.y);
        Origin { x: p.x, y: p.y }
    }
}

impl Rect {
    /// Whether the width and the height are numbers of type `i32`.
    pub open spec fn measurable(self) -> bool {
        fits(self.max.x - self.min.x) && fits(self.max.y - self.min.y)
    }

    /// Width and height of the rectangle.
    pub open spec fn extent(self) -> Size {
        Size { x: (self.max.x - self.min.x) as i32, y: (self.max.y - self.min.y) as i32 }
    }

    /// The rectangle between two opposite corners, given in any order.
    pub fn new(x0: i32, y0: i32, x1: i32, y1: i32) -> (r: Rect)
        ensures
            r.min == (Origin { x: smaller(x0, x1), y: smaller(y0, y1) }),
            r.max == (Origin { x: larger(x0, x1), y: larger(y0, y1) }),
    {
        Rect::from_corners(Origin { x: x0, y: y0 }, Origin { x: x1, y: y1 })
    }

    /// `IRect::from_corners`: the smaller coordinates of the two points make
    /// the minimum corner, the larger ones the maximum corner.
    #[verifier::external_body]
    pub(crate) fn from_corners(p: Origin, q: Origin) -> (r: Rect)
        ensures
            r.min == (Origin { x: smaller(p.x, q.x), y: smaller(p.y, q.y) }),
            r.max == (Origin { x: larger(p.x, q.x), y: larger(p.y, q.y) }),
    {
        let r = IRect::from_corners(IVec2::new(p.x, p.y), IVec2::new(q.x, q.y));
        Rect { min: Origin { x: r.min.x, y: r.min.y }, max: Origin { x: r.max.x, y: r.max.y } }
    }

    /// `IRect::size`: the maximum corner less the minimum corner. It is
    /// claimed only where neither difference overflows.
    #[verifier::external_body]
    pub(crate) fn corner_distance(&self) -> (s: Size)
        requires
            self.measurable(),
        ensures
            s == self.extent(),
    {
        let min = IVec2::new(self.min.x, self.min.y);
        let s = IRect { min, max: IVec2::new(self.max.x, self.max.y) }.size();
        Size { x: s.x, y: s.y }
    }

    /// Width and height.
    pub fn size(&self) -> (s: Size)
        requires
            self.measurable(),
        ensures
            s == self.extent(),
            s.x == self.max.x - self.min.x,
            s.y == self.max.y - self.min.y,
    {
        self.corner_distance()
    }

    /// Distance between the left and the right edge.
    pub fn width(&self) -> (w: i32)
        requires
            self.measurable(),
        ensures
            w == self.max.x - self.min.x,
    {
        self.corner_distance().x
    }

    /// Distance between the upper and the lower edge.
    pub fn height(&self) -> (h: i32)
        requires
            self.measurable(),
        ensures
            h == self.max.y - self.min.y,
    {
        self.corner_distance().y
    }
}

} // verus!
