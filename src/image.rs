//! Rendered images: a width, a height and row-major RGBA pixels.
use vstd::prelude::*;

verus! {

/// One pixel, four 8-bit channels.
#[derive(PartialEq, Eq, Structural, Clone, Copy, Debug)]
pub struct Rgba {
    pub r: u8,
    pub g: u8,
    pub b: u8,
    pub a: u8,
}

impl Rgba {
    pub open spec fn is_transparent_spec(&self) -> bool {
        self.r == 0 && self.g == 0 && self.b == 0 && self.a == 0
    }

    pub fn new(r: u8, g: u8, b: u8, a: u8) -> (c: Rgba)
        ensures
            c == (Rgba { r, g, b, a }),
    {
        Rgba { r, g, b, a }
    }

    /// True only for the colour whose four channels are all zero; any other
    /// colour counts as opaque.
    pub fn is_transparent(&self) -> (t: bool)
        ensures
            t == self.is_transparent_spec(),
    {
        self.r == 0 && self.g == 0 && self.b == 0 && self.a == 0
    }
}

/// What a `RasterImage` holds, as mathematical values.
pub struct ImageModel {
    pub width: u32,
    pub height: u32,
    pub pixels: Seq<Rgba>,
}

/// A rendered image. Pixel `(x, y)` sits at index `y * width + x`.
#[derive(PartialEq, Eq, Clone, Debug)]
pub struct RasterImage {
    pub width: u32,
    pub height: u32,
    pub pixels: Vec<Rgba>,
}

impl View for RasterImage {
    type V = ImageModel;

    open spec fn view(&self) -> ImageModel {
        ImageModel { width: self.width, height: self.height, pixels: self.pixels@ }
    }
}

impl ImageModel {
    /// One pixel per grid position.
    pub open spec fn is_valid(&self) -> bool {
        self.pixels.len() == self.width * self.height
    }

    pub open spec fn pixel(&self, x: int, y: int) -> Rgba {
        self.pixels[y * self.width + x]
    }
}

impl RasterImage {
    pub fn new(width: u32, height: u32, pixels: Vec<Rgba>) -> (img: RasterImage)
        ensures
            img@ == (ImageModel { width, height, pixels: pixels@ }),
    {
        RasterImage { width, height, pixels }
    }
}

} // verus!
