//! Axis-aligned integer rectangles on the pixel grid.
use vstd::prelude::*;

verus! {

/// The smallest side that is still split when a partition tree is built.
pub const MIN_NODE_SIZE: u32 = 3;

/// A rectangle of whole pixels: the columns `x .. x + width` and the rows
/// `y .. y + height`. A rectangle with a zero side holds no pixel.
#[derive(PartialEq, Eq, Structural, Clone, Copy, Debug)]
pub struct PixelRect {
    pub x: u32,
    pub y: u32,
    pub width: u32,
    pub height: u32,
}

pub open spec fn max(a: int, b: int) -> int {
    if a < b {
        b
    } else {
        a
    }
}

pub open spec fn least(a: int, b: int) -> int {
    if a < b {
        a
    } else {
        b
    }
}

/// The rectangle of the pixels that lie in both `a` and `b`, placed at the
/// larger of the two origins.
pub open spec fn intersection(a: PixelRect, b: PixelRect) -> PixelRect {
    let x0 = max(a.x as int, b.x as int);
    let y0 = max(a.y as int, b.y as int);
    let x1 = least(a.right(), b.right());
    let y1 = least(a.bottom(), b.bottom());
    PixelRect {
        x: x0 as u32,
        y: y0 as u32,
        width: if x1 > x0 { (x1 - x0) as u32 } else { 0 },
        height: if y1 > y0 { (y1 - y0) as u32 } else { 0 },
    }
}

impl PixelRect {
    pub open spec fn right(&self) -> int {
        self.x + self.width
    }

    pub open spec fn bottom(&self) -> int {
        self.y + self.height
    }

    /// The pixel `(px, py)` lies inside the rectangle.
    pub open spec fn has_point(&self, px: int, py: int) -> bool {
        &&& self.x <= px < self.right()
        &&& self.y <= py < self.bottom()
    }

    /// Both far edges can be written as `u32` coordinates.
    pub open spec fn ends_fit(&self) -> bool {
        self.right() <= u32::MAX && self.bottom() <= u32::MAX
    }

    pub open spec fn is_empty_spec(&self) -> bool {
        self.width == 0 || self.height == 0
    }

    pub fn from_min_size(x: u32, y: u32, width: u32, height: u32) -> (r: PixelRect)
        ensures
            r == (PixelRect { x, y, width, height }),
    {
        PixelRect { x, y, width, height }
    }

    /// True when the rectangle holds no pixel.
    pub fn is_empty(&self) -> (r: bool)
        ensures
            r == self.is_empty_spec(),
            r <==> !(exists|px: int, py: int| self.has_point(px, py)),
    {
        if self.width == 0 || self.height == 0 {
            true
        } else {
            assert(self.has_point(self.x as int, self.y as int));
            false
        }
    }

    /// The pixels that lie in both rectangles. When there are none, the
    /// result has a zero side.
    pub fn intersect(&self, other: &PixelRect) -> (r: PixelRect)
        ensures
            r == intersection(*self, *other),
            forall|px: int, py: int| #[trigger] r.has_point(px, py)
                <==> (self.has_point(px, py) && other.has_point(px, py)),
            r.width == 0 || (r.right() <= self.right() && r.right() <= other.right()),
            r.height == 0 || (r.bottom() <= self.bottom() && r.bottom() <= other.bottom()),
    {
        let x0 = if self.x < other.x { other.x } else { self.x };
        let y0 = if self.y < other.y { other.y } else { self.y };
        let r0: u64 = self.x as u64 + self.width as u64;
        let r1: u64 = other.x as u64 + other.width as u64;
        let b0: u64 = self.y as u64 + self.height as u64;
        let b1: u64 = other.y as u64 + other.height as u64;
        let x1 = if r0 < r1 { r0 } else { r1 };
        let y1 = if b0 < b1 { b0 } else { b1 };
        let w: u32 = if x1 > x0 as u64 { (x1 - x0 as u64) as u32 } else { 0 };
        let h: u32 = if y1 > y0 as u64 { (y1 - y0 as u64) as u32 } else { 0 };
        PixelRect { x: x0, y: y0, width: w, height: h }
    }

    /// True when some pixel lies in both rectangles.
    pub fn intersects(&self, other: &PixelRect) -> (r: bool)
        ensures
            r <==> exists|px: int, py: int| self.has_point(px, py) && other.has_point(px, py),
    {
        let i = self.intersect(other);
        let e = i.is_empty();
        proof {
            if e {
                assert forall|px: int, py: int|
                    !(self.has_point(px, py) && other.has_point(px, py)) by {
                    assert(!i.has_point(px, py));
                }
            } else {
                let (px, py) = choose|px: int, py: int| i.has_point(px, py);
                assert(i.has_point(px, py));
            }
        }
        !e
    }

    /// True when every pixel of `inner` lies in this rectangle (an empty
    /// `inner` included).
    pub fn contains_rect(&self, inner: &PixelRect) -> (r: bool)
        ensures
            r <==> forall|px: int, py: int| inner.has_point(px, py) ==> self.has_point(px, py),
    {
        if inner.width == 0 || inner.height == 0 {
            true
        } else {
            let ir: u64 = inner.x as u64 + inner.width as u64;
            let ib: u64 = inner.y as u64 + inner.height as u64;
            let sr: u64 = self.x as u64 + self.width as u64;
            let sb: u64 = self.y as u64 + self.height as u64;
            let r = self.x <= inner.x && self.y <= inner.y && ir <= sr && ib <= sb;
            if !r {
                assert(inner.has_point(inner.x as int, inner.y as int));
                assert(inner.has_point(ir - 1, ib - 1));
            }
            r
        }
    }
}

pub open spec fn left_half(r: PixelRect) -> PixelRect {
    PixelRect { x: r.x, y: r.y, width: (r.width / 2) as u32, height: r.height }
}

pub open spec fn right_half(r: PixelRect) -> PixelRect {
    PixelRect {
        x: (r.x + r.width / 2) as u32,
        y: r.y,
        width: (r.width - r.width / 2) as u32,
        height: r.height,
    }
}

pub open spec fn top_half(r: PixelRect) -> PixelRect {
    PixelRect { x: r.x, y: r.y, width: r.width, height: (r.height / 2) as u32 }
}

pub open spec fn bottom_half(r: PixelRect) -> PixelRect {
    PixelRect {
        x: r.x,
        y: (r.y + r.height / 2) as u32,
        width: r.width,
        height: (r.height - r.height / 2) as u32,
    }
}

/// The two halves of a split cover the rectangle, each pixel exactly once,
/// and keep its far edges representable.
pub proof fn lemma_halves_partition(r: PixelRect)
    requires
        r.ends_fit(),
    ensures
        left_half(r).ends_fit() && right_half(r).ends_fit(),
        top_half(r).ends_fit() && bottom_half(r).ends_fit(),
        forall|px: int, py: int|
            #[trigger] r.has_point(px, py) <==> (left_half(r).has_point(px, py) || right_half(
                r,
            ).has_point(px, py)),
        forall|px: int, py: int|
            #[trigger] r.has_point(px, py) <==> (top_half(r).has_point(px, py) || bottom_half(
                r,
            ).has_point(px, py)),
        forall|px: int, py: int|
            !(left_half(r).has_point(px, py) && #[trigger] right_half(r).has_point(px, py)),
        forall|px: int, py: int|
            !(top_half(r).has_point(px, py) && #[trigger] bottom_half(r).has_point(px, py)),
{
}

/// The left and right halves of `rect`: the left one is `width / 2` wide,
/// the right one takes the remaining columns; both have the full height.
pub fn split_horizontal(rect: &PixelRect) -> (r: [PixelRect; 2])
    requires
        rect.ends_fit(),
    ensures
        r[0] == left_half(*rect),
        r[1] == right_half(*rect),
{
    let split_at = rect.width / 2;
    let left = PixelRect { x: rect.x, y: rect.y, width: split_at, height: rect.height };
    let right = PixelRect {
        x: rect.x + split_at,
        y: rect.y,
        width: rect.width - split_at,
        height: rect.height,
    };
    [left, right]
}

/// The top and bottom halves of `rect`: the top one is `height / 2` tall,
/// the bottom one takes the remaining rows; both have the full width.
pub fn split_vertical(rect: &PixelRect) -> (r: [PixelRect; 2])
    requires
        rect.ends_fit(),
    ensures
        r[0] == top_half(*rect),
        r[1] == bottom_half(*rect),
{
    let split_at = rect.height / 2;
    let top = PixelRect { x: rect.x, y: rect.y, width: rect.width, height: split_at };
    let bottom = PixelRect {
        x: rect.x,
        y: rect.y + split_at,
        width: rect.width,
        height: rect.height - split_at,
    };
    [top, bottom]
}

} // verus!
