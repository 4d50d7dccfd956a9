//! Points and axis-aligned rectangles in image coordinates.
//!
//! A point is a whole pixel. A rectangle is exact in fractions of a pixel:
//! its horizontal quantities (`x`, `w`) count units of `1 / den_x` pixel and
//! its vertical ones (`y`, `h`) units of `1 / den_y` pixel, so a box scaled by
//! a ratio of whole numbers stays exact. A rectangle with a zero denominator
//! stands for no box.
use vstd::prelude::*;

verus! {

#[derive(Debug, Default, Clone, Copy, PartialEq, Eq, Structural)]
pub struct Point {
    pub x: i64,
    pub y: i64,
}

#[derive(Debug, Clone, Copy, PartialEq, Eq, Structural)]
pub struct Rect {
    pub x: i64,
    pub y: i64,
    pub w: i64,
    pub h: i64,
    /// Horizontal unit: `x` and `w` are in `1 / den_x` pixel.
    pub den_x: u32,
    /// Vertical unit: `y` and `h` are in `1 / den_y` pixel.
    pub den_y: u32,
}

pub open spec fn min_int(a: int, b: int) -> int {
    if a <= b {
        a
    } else {
        b
    }
}

pub open spec fn max_int(a: int, b: int) -> int {
    if a >= b {
        a
    } else {
        b
    }
}

impl Rect {
    /// Whether the rectangle stands for a box: both units are positive.
    pub open spec fn has_units(self) -> bool {
        self.den_x >= 1 && self.den_y >= 1
    }

    /// Right edge `x + w`, in units of `1 / den_x`.
    pub open spec fn right(self) -> int {
        self.x + self.w
    }

    /// Bottom edge `y + h`, in units of `1 / den_y`.
    pub open spec fn bottom(self) -> int {
        self.y + self.h
    }

    /// Whether pixel `p` lies in the closed rectangle.
    pub open spec fn spec_contains(self, p: Point) -> bool {
        self.x <= p.x * self.den_x <= self.right() && self.y <= p.y * self.den_y <= self.bottom()
    }

    /// Whether the interiors of the two rectangles overlap, compared exactly
    /// (across denominators) with strict inequalities on both axes.
    pub open spec fn spec_intersects(self, other: Rect) -> bool {
        &&& self.x * other.den_x < other.right() * self.den_x
        &&& self.right() * other.den_x > other.x * self.den_x
        &&& self.y * other.den_y < other.bottom() * self.den_y
        &&& self.bottom() * other.den_y > other.y * self.den_y
    }

    /// The whole-pixel rectangle spanned by two corner points: its origin is
    /// the smaller coordinate on each axis and its size the distance between
    /// them, capped at `i64::MAX`.
    pub open spec fn spec_from_points(a: Point, b: Point) -> Rect {
        Rect {
            x: min_int(a.x as int, b.x as int) as i64,
            y: min_int(a.y as int, b.y as int) as i64,
            w: min_int(
                max_int(a.x as int, b.x as int) - min_int(a.x as int, b.x as int),
                i64::MAX as int,
            ) as i64,
            h: min_int(
                max_int(a.y as int, b.y as int) - min_int(a.y as int, b.y as int),
                i64::MAX as int,
            ) as i64,
            den_x: 1,
            den_y: 1,
        }
    }

    /// Normalized rectangle spanned by two corner points, in either order.
    pub fn from_points(a: Point, b: Point) -> (r: Rect)
        ensures
            r == Rect::spec_from_points(a, b),
    {
        let x1 = if a.x <= b.x {
            a.x
        } else {
            b.x
        };
        let y1 = if a.y <= b.y {
            a.y
        } else {
            b.y
        };
        let x2 = if a.x >= b.x {
            a.x
        } else {
            b.x
        };
        let y2 = if a.y >= b.y {
            a.y
        } else {
            b.y
        };
        let dw = x2 as i128 - x1 as i128;
        let dh = y2 as i128 - y1 as i128;
        let w: i64 = if dw > i64::MAX as i128 {
            i64::MAX
        } else {
            dw as i64
        };
        let h: i64 = if dh > i64::MAX as i128 {
            i64::MAX
        } else {
            dh as i64
        };
        Rect { x: x1, y: y1, w, h, den_x: 1, den_y: 1 }
    }

    /// Whether pixel `p` lies inside the rectangle, edges included.
    pub fn contains(&self, p: Point) -> (b: bool)
        ensures
            b == self.spec_contains(p),
    {
        proof {
            lemma_product_fits(p.x as int, self.den_x as int);
            lemma_product_fits(p.y as int, self.den_y as int);
        }
        let px = p.x as i128 * self.den_x as i128;
        let py = p.y as i128 * self.den_y as i128;
        px >= self.x as i128 && px <= self.x as i128 + self.w as i128 && py >= self.y as i128 && py
            <= self.y as i128 + self.h as i128
    }

    /// Whether the two rectangles overlap (touching edges do not count).
    pub fn intersects(&self, other: &Rect) -> (b: bool)
        ensures
            b == self.spec_intersects(*other),
    {
        let sdx = self.den_x as i128;
        let sdy = self.den_y as i128;
        let odx = other.den_x as i128;
        let ody = other.den_y as i128;
        let ax2 = self.x as i128 + self.w as i128;
        let ay2 = self.y as i128 + self.h as i128;
        let bx2 = other.x as i128 + other.w as i128;
        let by2 = other.y as i128 + other.h as i128;
        proof {
            lemma_product_fits(self.x as int, odx as int);
            lemma_product_fits(ax2 as int, odx as int);
            lemma_product_fits(other.x as int, sdx as int);
            lemma_product_fits(bx2 as int, sdx as int);
            lemma_product_fits(self.y as int, ody as int);
            lemma_product_fits(ay2 as int, ody as int);
            lemma_product_fits(other.y as int, sdy as int);
            lemma_product_fits(by2 as int, sdy as int);
        }
        self.x as i128 * odx < bx2 * sdx && ax2 * odx > other.x as i128 * sdx && (self.y as i128)
            * ody < by2 * sdy && ay2 * ody > other.y as i128 * sdy
    }
}

/// A coordinate or edge (below `2^64` in size) times a denominator fits in
/// `i128`.
proof fn lemma_product_fits(a: int, d: int)
    requires
        -0x1_0000_0000_0000_0000 <= a <= 0x1_0000_0000_0000_0000,
        0 <= d <= 0xffff_ffff,
    ensures
        -0x1_0000_0000_0000_0000_0000_0000 <= a * d <= 0x1_0000_0000_0000_0000_0000_0000,
{
    assert(-0x1_0000_0000_0000_0000_0000_0000 <= a * d <= 0x1_0000_0000_0000_0000_0000_0000)
        by (nonlinear_arith)
        requires
            -0x1_0000_0000_0000_0000 <= a <= 0x1_0000_0000_0000_0000,
            0 <= d <= 0xffff_ffff,
    ;
}

/// Overlap is symmetric: `a.intersects(&b)` and `b.intersects(&a)` agree.
pub proof fn intersects_is_symmetric(a: Rect, b: Rect)
    ensures
        a.spec_intersects(b) == b.spec_intersects(a),
{
}

/// The rectangle spanned by two points does not depend on their order.
pub proof fn from_points_is_symmetric(a: Point, b: Point)
    ensures
        Rect::spec_from_points(a, b) == Rect::spec_from_points(b, a),
{
}

/// The rectangle spanned by two points contains both of them, unless they are
/// further apart than `i64::MAX` on an axis (then the size is capped).
pub proof fn from_points_contains_corners(a: Point, b: Point)
    requires
        max_int(a.x as int, b.x as int) - min_int(a.x as int, b.x as int) <= i64::MAX,
        max_int(a.y as int, b.y as int) - min_int(a.y as int, b.y as int) <= i64::MAX,
    ensures
        Rect::spec_from_points(a, b).spec_contains(a),
        Rect::spec_from_points(a, b).spec_contains(b),
{
}

} // verus!
