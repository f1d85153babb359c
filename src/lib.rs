//! Opacity hit-testing over rendered images: a per-pixel mask, a
//! partition tree of opaque-pixel counts over it, and the byte codec
//! and cache keys used to persist rendered images.
pub mod bits;
pub mod cache;
pub mod codec;
pub mod geometry;
pub mod image;
pub mod index;
pub mod mask;

pub use cache::{cache_key, hex_key, render_result_from_bytes, render_result_to_bytes, SvgError};
pub use bits::{to_bitset, PixelBits};
pub use codec::{img_to_u8, u8_to_img, DecodeError};
pub use geometry::{split_horizontal, split_vertical, PixelRect};
pub use image::{RasterImage, Rgba};
pub use index::{BitImg, LayeredRect, RectTree};
pub use mask::Pixels2D;
