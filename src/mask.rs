//! A one-bit-per-pixel opacity mask and its counting model.
use vstd::prelude::*;

use crate::bits::{opaque_indices, to_bitset, PixelBits};
use crate::geometry::PixelRect;
use crate::image::RasterImage;

verus! {

/// Which pixels of a `width` x `height` grid are opaque: pixel `(x, y)` is
/// opaque when index `y * width + x` is in `bits`.
pub struct Pixels2D {
    bits: PixelBits,
    width: u32,
    height: u32,
}

pub open spec fn min(a: int, b: int) -> int {
    if a < b {
        a
    } else {
        b
    }
}

impl Pixels2D {
    pub closed spec fn width_spec(&self) -> u32 {
        self.width
    }

    pub closed spec fn height_spec(&self) -> u32 {
        self.height
    }

    pub closed spec fn members(&self) -> Set<nat> {
        self.bits.members()
    }

    /// Every index of the grid fits in a `usize`; this holds of every mask.
    pub open spec fn wf(&self) -> bool {
        self.width_spec() * self.height_spec() <= usize::MAX
    }

    #[verifier::type_invariant]
    pub(crate) open spec fn grid_fits(&self) -> bool {
        self.wf()
    }

    /// The mask's bounds: origin at zero, the grid's size.
    pub open spec fn bounds(&self) -> PixelRect {
        PixelRect {
            x: 0,
            y: 0,
            width: self.width_spec(),
            height: self.height_spec(),
        }
    }

    pub open spec fn opaque(&self, x: int, y: int) -> bool {
        &&& 0 <= x < self.width_spec()
        &&& 0 <= y < self.height_spec()
        &&& self.members().contains((y * self.width_spec() + x) as nat)
    }

    /// Opaque pixels of row `y` in the columns `x0 .. x1`.
    pub open spec fn row_count(&self, y: int, x0: int, x1: int) -> nat
        decreases x1 - x0,
    {
        if x1 <= x0 {
            0
        } else {
            self.row_count(y, x0, x1 - 1) + if self.opaque(x1 - 1, y) {
                1nat
            } else {
                0nat
            }
        }
    }

    /// Opaque pixels in the columns `x0 .. x1` of the rows `y0 .. y1`.
    pub open spec fn region_count(&self, x0: int, x1: int, y0: int, y1: int) -> nat
        decreases y1 - y0,
    {
        if y1 <= y0 {
            0
        } else {
            self.region_count(x0, x1, y0, y1 - 1) + self.row_count(y1 - 1, x0, x1)
        }
    }

    /// Opaque pixels in `r`, clipped to the mask's bounds.
    pub open spec fn count_in(&self, r: PixelRect) -> nat {
        self.region_count(
            r.x as int,
            min(r.right(), self.width_spec() as int),
            r.y as int,
            min(r.bottom(), self.height_spec() as int),
        )
    }

    /// Some opaque pixel lies in `r`.
    pub open spec fn any_in(&self, r: PixelRect) -> bool {
        exists|x: int, y: int| r.has_point(x, y) && self.opaque(x, y)
    }
}

impl Pixels2D {
    /// A mask of the given size over the indices in `bits`.
    pub fn new(bits: PixelBits, width: u32, height: u32) -> (m: Pixels2D)
        requires
            width * height <= usize::MAX,
        ensures
            m.wf(),
            m.width_spec() == width,
            m.height_spec() == height,
            m.members() == bits.members(),
    {
        Pixels2D { bits, width, height }
    }

    /// The mask of an image: a pixel is opaque unless all four of its
    /// channels are zero.
    pub fn from_image(img: &RasterImage) -> (m: Pixels2D)
        requires
            img@.is_valid(),
        ensures
            m.wf(),
            m.width_spec() == img.width,
            m.height_spec() == img.height,
            forall|x: int, y: int|
                0 <= x < img.width && 0 <= y < img.height ==> (#[trigger] m.opaque(x, y)
                    <==> !img@.pixel(x, y).is_transparent_spec()),
    {
        let n = img.pixels.len();
        let bits = to_bitset(img);
        let m = Pixels2D::new(bits, img.width, img.height);
        assert forall|x: int, y: int|
            0 <= x < img.width && 0 <= y < img.height implies (#[trigger] m.opaque(x, y)
                <==> !img@.pixel(x, y).is_transparent_spec()) by {
            lemma_index_in_grid(x, y, img.width as int, img.height as int);
            assert(opaque_indices(img@).contains((y * img.width + x) as nat)
                == !img@.pixel(x, y).is_transparent_spec());
        }
        m
    }

    pub fn width(&self) -> (w: u32)
        ensures
            w == self.width_spec(),
    {
        self.width
    }

    pub fn height(&self) -> (h: u32)
        ensures
            h == self.height_spec(),
    {
        self.height
    }

    /// The mask's bounds: origin at zero, the grid's size.
    pub fn rect(&self) -> (r: PixelRect)
        ensures
            r == self.bounds(),
    {
        PixelRect { x: 0, y: 0, width: self.width, height: self.height }
    }

    /// Whether pixel `(x, y)` is opaque; false outside the grid.
    pub fn pixel_at(&self, x: usize, y: usize) -> (r: bool)
        ensures
            r == self.opaque(x as int, y as int),
    {
        proof {
            use_type_invariant(self);
        }
        if x < self.width as usize && y < self.height as usize {
            proof {
                lemma_index_in_grid(x as int, y as int, self.width as int, self.height as int);
            }
            self.bits.has(y * self.width as usize + x)
        } else {
            false
        }
    }

    /// The columns `x0 .. x1` and rows `y0 .. y1` of `r` that lie in the grid.
    fn clip(&self, r: &PixelRect) -> (c: (u32, u32, u32, u32))
        ensures
            c.0 == r.x,
            c.1 == min(r.right(), self.width_spec() as int),
            c.2 == r.y,
            c.3 == min(r.bottom(), self.height_spec() as int),
    {
        let right: u64 = r.x as u64 + r.width as u64;
        let bottom: u64 = r.y as u64 + r.height as u64;
        let x1: u32 = if right < self.width as u64 { right as u32 } else { self.width };
        let y1: u32 = if bottom < self.height as u64 { bottom as u32 } else { self.height };
        (r.x, x1, r.y, y1)
    }

    /// The number of opaque pixels in `rect`, clipped to the grid.
    pub fn pixel_count(&self, rect: PixelRect) -> (n: usize)
        ensures
            n == self.count_in(rect),
    {
        proof {
            use_type_invariant(self);
        }
        let (x0, x1, y0, y1) = self.clip(&rect);
        if x0 >= x1 {
            proof {
                lemma_region_zero_width(self, x0 as int, x1 as int, y0 as int, y1 as int);
            }
            return 0;
        }
        if y0 >= y1 {
            return 0;
        }
        let ghost w = self.width_spec();
        let ghost h = self.height_spec();
        let mut count: usize = 0;
        let mut y: u32 = y0;
        while y < y1
            invariant
                self.wf(),
                w == self.width_spec(),
                h == self.height_spec(),
                x0 < x1 <= w,
                y0 <= y <= y1 <= h,
                count == self.region_count(x0 as int, x1 as int, y0 as int, y as int),
            decreases y1 - y,
        {
            let mut x: u32 = x0;
            while x < x1
                invariant
                    self.wf(),
                    w == self.width_spec(),
                    h == self.height_spec(),
                    x0 <= x <= x1 <= w,
                    y0 <= y < y1 <= h,
                    count == self.region_count(x0 as int, x1 as int, y0 as int, y as int)
                        + self.row_count(y as int, x0 as int, x as int),
                decreases x1 - x,
            {
                if self.pixel_at(x as usize, y as usize) {
                    proof {
                        lemma_row_split(self, y as int, x0 as int, x + 1, x1 as int);
                        lemma_region_bound(self, x0 as int, x1 as int, y0 as int, y + 1);
                        assert((x1 - x0) * (y + 1 - y0) <= w * h) by (nonlinear_arith)
                            requires
                                0 <= x1 - x0 <= w,
                                0 <= y + 1 - y0 <= h,
                        ;
                        assert(self.region_count(x0 as int, x1 as int, y0 as int, y + 1)
                            == self.region_count(x0 as int, x1 as int, y0 as int, y as int)
                            + self.row_count(y as int, x0 as int, x1 as int));
                        assert(self.row_count(y as int, x0 as int, x + 1)
                            == self.row_count(y as int, x0 as int, x as int) + 1);
                    }
                    count += 1;
                }
                x += 1;
            }
            y += 1;
        }
        count
    }

    /// Whether some opaque pixel lies in `rect`; scans `rect` clipped to the
    /// grid and stops at the first one.
    pub fn contains_pixel(&self, rect: &PixelRect) -> (r: bool)
        ensures
            r == self.any_in(*rect),
    {
        proof {
            use_type_invariant(self);
        }
        let (x0, x1, y0, y1) = self.clip(rect);
        let mut y: u32 = y0;
        while y < y1
            invariant
                self.wf(),
                x0 == rect.x,
                y0 == rect.y,
                x1 == min(rect.right(), self.width_spec() as int),
                y1 == min(rect.bottom(), self.height_spec() as int),
                y0 <= y,
                forall|px: int, py: int|
                    x0 <= px < x1 && y0 <= py < y ==> !#[trigger] self.opaque(px, py),
            decreases y1 - y,
        {
            let mut x: u32 = x0;
            while x < x1
                invariant
                    self.wf(),
                    x0 == rect.x,
                    y0 == rect.y,
                    x1 == min(rect.right(), self.width_spec() as int),
                    y1 == min(rect.bottom(), self.height_spec() as int),
                    y0 <= y < y1,
                    x0 <= x,
                    forall|px: int, py: int|
                        x0 <= px < x1 && y0 <= py < y ==> !#[trigger] self.opaque(px, py),
                    forall|px: int| x0 <= px < x ==> !#[trigger] self.opaque(px, y as int),
                decreases x1 - x,
            {
                if self.pixel_at(x as usize, y as usize) {
                    assert(rect.has_point(x as int, y as int));
                    return true;
                }
                x += 1;
            }
            y += 1;
        }
        proof {
            if self.any_in(*rect) {
                let (px, py) = choose|px: int, py: int|
                    rect.has_point(px, py) && self.opaque(px, py);
                assert(!self.opaque(px, py));
            }
        }
        false
    }
}

proof fn lemma_index_in_grid(x: int, y: int, w: int, h: int)
    requires
        0 <= x < w,
        0 <= y < h,
    ensures
        0 <= y * w + x < w * h,
{
    assert(0 <= y * w + x < w * h) by (nonlinear_arith)
        requires
            0 <= x < w,
            0 <= y < h,
    ;
}

pub proof fn lemma_row_split(m: &Pixels2D, y: int, a: int, b: int, c: int)
    requires
        a <= b <= c,
    ensures
        m.row_count(y, a, c) == m.row_count(y, a, b) + m.row_count(y, b, c),
    decreases c - b,
{
    if c > b {
        lemma_row_split(m, y, a, b, c - 1);
    }
}

pub proof fn lemma_region_split_x(m: &Pixels2D, a: int, b: int, c: int, y0: int, y1: int)
    requires
        a <= b <= c,
    ensures
        m.region_count(a, c, y0, y1) == m.region_count(a, b, y0, y1) + m.region_count(b, c, y0, y1),
    decreases y1 - y0,
{
    if y1 > y0 {
        lemma_region_split_x(m, a, b, c, y0, y1 - 1);
        lemma_row_split(m, y1 - 1, a, b, c);
    }
}

pub proof fn lemma_region_split_y(m: &Pixels2D, x0: int, x1: int, a: int, b: int, c: int)
    requires
        a <= b <= c,
    ensures
        m.region_count(x0, x1, a, c) == m.region_count(x0, x1, a, b) + m.region_count(x0, x1, b, c),
    decreases c - b,
{
    if c > b {
        lemma_region_split_y(m, x0, x1, a, b, c - 1);
    }
}

proof fn lemma_row_positive(m: &Pixels2D, y: int, x0: int, x1: int)
    ensures
        m.row_count(y, x0, x1) > 0 <==> exists|x: int| x0 <= x < x1 && m.opaque(x, y),
        m.row_count(y, x0, x1) <= if x1 <= x0 { 0 } else { x1 - x0 },
    decreases x1 - x0,
{
    if x1 > x0 {
        lemma_row_positive(m, y, x0, x1 - 1);
        if exists|x: int| x0 <= x < x1 && m.opaque(x, y) {
            let x = choose|x: int| x0 <= x < x1 && m.opaque(x, y);
            if x < x1 - 1 {
                assert(x0 <= x < x1 - 1 && m.opaque(x, y));
            }
        }
    }
}

proof fn lemma_region_positive(m: &Pixels2D, x0: int, x1: int, y0: int, y1: int)
    ensures
        m.region_count(x0, x1, y0, y1) > 0 <==> exists|x: int, y: int|
            x0 <= x < x1 && y0 <= y < y1 && m.opaque(x, y),
    decreases y1 - y0,
{
    if y1 > y0 {
        lemma_region_positive(m, x0, x1, y0, y1 - 1);
        lemma_row_positive(m, y1 - 1, x0, x1);
        if exists|x: int, y: int| x0 <= x < x1 && y0 <= y < y1 && m.opaque(x, y) {
            let (x, y) = choose|x: int, y: int| x0 <= x < x1 && y0 <= y < y1 && m.opaque(x, y);
            if y < y1 - 1 {
                assert(x0 <= x < x1 && y0 <= y < y1 - 1 && m.opaque(x, y));
            } else {
                assert(x0 <= x < x1 && m.opaque(x, y1 - 1));
            }
        }
        if m.row_count(y1 - 1, x0, x1) > 0 {
            let x = choose|x: int| x0 <= x < x1 && #[trigger] m.opaque(x, y1 - 1);
            assert(x0 <= x < x1 && y0 <= y1 - 1 < y1 && m.opaque(x, y1 - 1));
        }
        if m.region_count(x0, x1, y0, y1 - 1) > 0 {
            let (x, y) = choose|x: int, y: int|
                x0 <= x < x1 && y0 <= y < y1 - 1 && m.opaque(x, y);
            assert(x0 <= x < x1 && y0 <= y < y1 && m.opaque(x, y));
        }
    }
}

proof fn lemma_region_bound(m: &Pixels2D, x0: int, x1: int, y0: int, y1: int)
    requires
        x0 <= x1,
        y0 <= y1,
    ensures
        m.region_count(x0, x1, y0, y1) <= (x1 - x0) * (y1 - y0),
    decreases y1 - y0,
{
    if y1 > y0 {
        lemma_region_bound(m, x0, x1, y0, y1 - 1);
        lemma_row_positive(m, y1 - 1, x0, x1);
        assert((x1 - x0) * (y1 - 1 - y0) + (x1 - x0) == (x1 - x0) * (y1 - y0))
            by (nonlinear_arith);
    }
}

/// The number of opaque pixels in `r` is positive exactly when some opaque
/// pixel lies in `r`, and it is at most the number of pixels of the mask.
pub proof fn lemma_count_in(m: &Pixels2D, r: PixelRect)
    ensures
        m.count_in(r) > 0 <==> m.any_in(r),
        m.count_in(r) <= m.width_spec() * m.height_spec(),
{
    let x0 = r.x as int;
    let y0 = r.y as int;
    let x1 = min(r.right(), m.width_spec() as int);
    let y1 = min(r.bottom(), m.height_spec() as int);
    lemma_region_positive(m, x0, x1, y0, y1);
    if m.any_in(r) {
        let (x, y) = choose|x: int, y: int| r.has_point(x, y) && m.opaque(x, y);
        assert(x0 <= x < x1 && y0 <= y < y1 && m.opaque(x, y));
    }
    if m.count_in(r) > 0 {
        let (x, y) = choose|x: int, y: int| x0 <= x < x1 && y0 <= y < y1 && m.opaque(x, y);
        assert(r.has_point(x, y) && m.opaque(x, y));
    }
    if x0 <= x1 && y0 <= y1 {
        lemma_region_bound(m, x0, x1, y0, y1);
        let w = m.width_spec();
        let h = m.height_spec();
        assert((x1 - x0) * (y1 - y0) <= w * h) by (nonlinear_arith)
            requires
                0 <= x1 - x0 <= w,
                0 <= y1 - y0 <= h,
        ;
    } else if x0 > x1 {
        assert(m.count_in(r) == 0) by {
            lemma_region_zero_width(m, x0, x1, y0, y1);
        }
        assert(0 <= m.width_spec() * m.height_spec() as int) by (nonlinear_arith)
            requires
                0 <= m.width_spec(),
                0 <= m.height_spec(),
        ;
    } else {
        assert(0 <= m.width_spec() * m.height_spec() as int) by (nonlinear_arith)
            requires
                0 <= m.width_spec(),
                0 <= m.height_spec(),
        ;
    }
}

pub(crate) proof fn lemma_region_zero_width(m: &Pixels2D, x0: int, x1: int, y0: int, y1: int)
    requires
        x1 <= x0,
    ensures
        m.region_count(x0, x1, y0, y1) == 0,
    decreases y1 - y0,
{
    if y1 > y0 {
        lemma_region_zero_width(m, x0, x1, y0, y1 - 1);
    }
}

} // verus!
