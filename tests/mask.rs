use egui::Color32;
use svg_hit::{
    to_bitset, BitImg, LayeredRect, PixelBits, PixelRect, Pixels2D, RasterImage, RectTree, Rgba,
};

const T: Color32 = Color32::TRANSPARENT;
const B: Color32 = Color32::BLACK;

fn r(x: u32, y: u32, w: u32, h: u32) -> PixelRect {
    PixelRect::from_min_size(x, y, w, h)
}

fn image(width: u32, height: u32, colors: &[Color32]) -> RasterImage {
    let pixels = colors
        .iter()
        .map(|c| {
            let [r, g, b, a] = c.to_array();
            Rgba::new(r, g, b, a)
        })
        .collect();
    RasterImage::new(width, height, pixels)
}

fn sample() -> RasterImage {
    image(8, 16, &[
        //  0  1  2  3  4  5  6  7
        T, T, T, T, T, T, T, T, // 0
        T, T, T, T, T, T, T, T, // 1
        T, T, B, T, T, T, B, B, // 2
        T, T, T, T, T, T, B, T, // 3
        T, T, T, T, T, T, T, T, // 4
        T, T, T, T, T, T, T, T, // 5
        T, B, B, T, T, T, T, T, // 6
        T, T, T, T, T, T, T, T, // 7
        T, T, T, T, T, T, T, T, // 8
        T, T, T, T, T, T, T, T, // 9
        T, T, T, T, T, T, T, T, // 10
        T, T, T, T, T, T, T, T, // 11
        T, T, T, T, T, T, T, B, // 12
        T, T, T, T, T, T, T, T, // 13
        B, B, T, T, T, T, T, T, // 14
        T, T, T, T, T, T, T, T, // 15
    ])
}

#[test]
fn img_can_convert_to_bitset() {
    let bitset = to_bitset(&sample());
    assert!(!bitset.has(0));
    assert!(bitset.has(18));
    assert!(bitset.has(22));
    assert!(bitset.has(23));
    assert!(bitset.has(30));
    assert!(bitset.has(49));
    assert!(bitset.has(50));
}

#[test]
fn is_opaque() {
    let img = BitImg::from_image(&sample());

    assert!(!img.is_opaque_at(0, 0));
    assert!(img.is_opaque_at(2, 2));
    assert!(img.is_opaque_at(6, 2));
    assert!(img.is_opaque_at(6, 2));
    assert!(img.is_opaque_at(0, 14));
    assert!(img.is_opaque_at(1, 14));
    assert!(!img.is_opaque_at(7, 15));
}

#[test]
fn mask_matches_every_pixel() {
    let img = sample();
    let mask = Pixels2D::from_image(&img);
    for y in 0..16usize {
        for x in 0..8usize {
            let c = img.pixels[y * 8 + x];
            assert_eq!(mask.pixel_at(x, y), !c.is_transparent());
        }
    }
    assert!(!mask.pixel_at(8, 2));
    assert!(!mask.pixel_at(0, 16));
}

#[test]
fn any_nonzero_channel_is_opaque() {
    let img = RasterImage::new(
        4,
        1,
        vec![Rgba::new(1, 0, 0, 0), Rgba::new(0, 0, 0, 1), Rgba::new(0, 0, 0, 0), Rgba::new(0, 0, 7, 0)],
    );
    let mask = Pixels2D::from_image(&img);
    assert!(mask.pixel_at(0, 0));
    assert!(mask.pixel_at(1, 0));
    assert!(!mask.pixel_at(2, 0));
    assert!(mask.pixel_at(3, 0));
}

#[test]
fn small_bitimg_becomes_leaf() {
    // O__
    // __O
    // OOO
    let bit_set = PixelBits::from_indices(&[0, 5, 6, 7, 8]);
    let rect = r(0, 0, 3, 3);
    let bit_img = Pixels2D::new(bit_set, 3, 3);
    let layered = RectTree::new(rect, &bit_img);
    assert_eq!(layered.len(), 1);
    assert_eq!(*layered.node(layered.root()), LayeredRect::Leaf { rect, pixel_count: 5 });
}

#[test]
fn bitimg_split_horizontal() {
    // O__O
    // __O_
    // OOO_
    let bit_set = PixelBits::from_indices(&[0, 3, 6, 8, 9, 10]);

    let rect = r(0, 0, 4, 3);
    let bit_img = Pixels2D::new(bit_set, 4, 3);
    let layered = RectTree::new(rect, &bit_img);
    let [left, right] = match *layered.node(layered.root()) {
        LayeredRect::Leaf { .. } => {
            panic!("Test failed.");
        }
        LayeredRect::Node { rect: rr, children, pixel_count } => {
            assert_eq!(rect, rr);
            assert_eq!(pixel_count, 6);
            children
        }
    };

    // Left
    // O_
    // __
    // OO
    match *layered.node(left) {
        LayeredRect::Node { .. } => {
            panic!("Test failed.");
        }
        LayeredRect::Leaf { rect, pixel_count } => {
            assert_eq!(pixel_count, 3);
            assert_eq!(rect, r(0, 0, 2, 3));
        }
    };

    // Right
    // _O
    // O_
    // O_
    match *layered.node(right) {
        LayeredRect::Node { .. } => {
            panic!("Test failed.");
        }
        LayeredRect::Leaf { rect, pixel_count } => {
            assert_eq!(pixel_count, 3);
            assert_eq!(rect, r(2, 0, 2, 3));
        }
    }
}

#[test]
fn tall_rect_splits_vertically() {
    let bits = PixelBits::from_indices(&[0, 2 * 3 + 1, 5 * 3 + 2]);
    let mask = Pixels2D::new(bits, 3, 6);
    let tree = RectTree::new(r(0, 0, 3, 6), &mask);
    match *tree.node(tree.root()) {
        LayeredRect::Node { children: [l, r0], pixel_count, .. } => {
            let (left, right) = (tree.node(l), tree.node(r0));
            assert_eq!(pixel_count, 3);
            assert_eq!(left.rect(), r(0, 0, 3, 3));
            assert_eq!(right.rect(), r(0, 3, 3, 3));
            assert_eq!(left.pixel_count(), 2);
            assert_eq!(right.pixel_count(), 1);
        }
        LayeredRect::Leaf { .. } => panic!("a 3x6 rectangle is split"),
    }
}

#[test]
fn node_counts_add_up() {
    let img = sample();
    let mask = Pixels2D::from_image(&img);
    let tree = RectTree::new(mask.rect(), &mask);
    for i in 0..tree.len() {
        let n = tree.node(i);
        assert_eq!(n.pixel_count(), mask.pixel_count(n.rect()));
        if let LayeredRect::Node { children: [l, r0], pixel_count, .. } = *n {
            assert!(l < i && r0 < i);
            assert_eq!(pixel_count, tree.node(l).pixel_count() + tree.node(r0).pixel_count());
        }
    }
    assert_eq!(tree.node(tree.root()).pixel_count(), 9);
    assert_eq!(tree.node(tree.root()).rect(), r(0, 0, 8, 16));
}

#[test]
fn pixel_count_clips_to_bounds() {
    let mask = Pixels2D::from_image(&sample());
    assert_eq!(mask.pixel_count(r(0, 0, 100, 100)), 9);
    assert_eq!(mask.pixel_count(r(6, 2, 10, 2)), 3);
    assert_eq!(mask.pixel_count(r(8, 0, 5, 5)), 0);
    assert_eq!(mask.pixel_count(r(0, 0, 0, 16)), 0);
}

#[test]
fn pixels2d_can_determine_rect_contains_pixels() {
    // O__
    // __O
    // OOO
    let bitset = PixelBits::from_indices(&[0, 5, 6, 7, 8]);

    let pixels = Pixels2D::new(bitset, 3, 3);
    assert!(pixels.contains_pixel(&r(0, 0, 1, 1)));
    assert!(!pixels.contains_pixel(&r(1, 0, 1, 1)));
    assert!(pixels.contains_pixel(&r(0, 0, 1, 2)));
    assert!(!pixels.contains_pixel(&r(1, 0, 1, 2)));
    assert!(pixels.contains_pixel(&r(1, 0, 1, 3)));
    assert!(!pixels.contains_pixel(&r(1, 0, 2, 1)));
    assert!(!pixels.contains_pixel(&r(2, 0, 2, 1)));
    assert!(!pixels.contains_pixel(&r(10, 10, 20, 20)));
}

#[test]
fn bitimg_can_determine_rect_contains_pixels() {
    // O___O
    // __OO_
    // OOO__
    // _OO__
    // _____
    let bitset = PixelBits::from_indices(&[0, 4, 7, 8, 10, 11, 12, 16, 17]);

    let pixels = Pixels2D::new(bitset, 5, 5);
    assert!(pixels.contains_pixel(&r(0, 0, 1, 1)));
    assert!(!pixels.contains_pixel(&r(1, 0, 1, 1)));
    assert!(pixels.contains_pixel(&r(0, 0, 1, 2)));
    assert!(!pixels.contains_pixel(&r(1, 0, 1, 2)));
    assert!(pixels.contains_pixel(&r(1, 0, 1, 3)));
    assert!(!pixels.contains_pixel(&r(1, 0, 2, 1)));
    assert!(!pixels.contains_pixel(&r(2, 0, 2, 1)));
    assert!(!pixels.contains_pixel(&r(3, 2, 2, 2)));
    assert!(!pixels.contains_pixel(&r(0, 4, 2, 2)));
    assert!(pixels.contains_pixel(&r(0, 3, 3, 3)));
    assert!(!pixels.contains_pixel(&r(10, 10, 20, 20)));

    let index = BitImg::new(pixels);
    assert!(index.contains_pixel(&r(0, 0, 1, 1)));
    assert!(!index.contains_pixel(&r(1, 0, 1, 1)));
    assert!(index.contains_pixel(&r(0, 0, 1, 2)));
    assert!(!index.contains_pixel(&r(1, 0, 1, 2)));
    assert!(index.contains_pixel(&r(1, 0, 1, 3)));
    assert!(!index.contains_pixel(&r(1, 0, 2, 1)));
    assert!(!index.contains_pixel(&r(2, 0, 2, 1)));
    assert!(!index.contains_pixel(&r(3, 2, 2, 2)));
    assert!(!index.contains_pixel(&r(0, 4, 2, 2)));
    assert!(index.contains_pixel(&r(0, 3, 3, 3)));
    assert!(!index.contains_pixel(&r(10, 10, 20, 20)));
}

#[test]
fn index_agrees_with_mask_on_every_rect() {
    let img = sample();
    let index = BitImg::from_image(&img);
    let mask = index.pixels();
    for x in 0..10u32 {
        for y in 0..18u32 {
            for w in 0..5u32 {
                for h in 0..5u32 {
                    let q = r(x, y, w, h);
                    let clipped = q.intersect(&mask.rect());
                    assert_eq!(index.contains_pixel(&q), mask.contains_pixel(&clipped));
                    assert_eq!(index.contains_pixel(&q), mask.pixel_count(q) > 0);
                }
            }
        }
    }
    assert!(index.contains_pixel(&r(0, 0, u32::MAX, u32::MAX)));
    assert!(!index.contains_pixel(&r(3, 3, 0, 10)));
}

#[test]
fn index_of_empty_image() {
    let index = BitImg::from_image(&RasterImage::new(0, 0, vec![]));
    assert!(!index.contains_pixel(&r(0, 0, 10, 10)));
    let tree = index.layered_rect();
    assert_eq!(tree.node(tree.root()).pixel_count(), 0);
}

#[test]
fn repeated_indices_are_kept_once() {
    let bits = PixelBits::from_indices(&[3, 3, 0]);
    assert!(bits.has(3));
    assert!(bits.has(0));
    assert!(!bits.has(2));
    let mask = Pixels2D::new(bits, 2, 2);
    assert_eq!(mask.pixel_count(r(0, 0, 2, 2)), 2);
}

#[test]
fn far_coordinates_are_transparent() {
    let mask = Pixels2D::new(PixelBits::from_indices(&[0, 1, 2, 3]), 2, 2);
    assert!(mask.pixel_at(1, 1));
    assert!(!mask.pixel_at(usize::MAX, 0));
    assert!(!mask.pixel_at(0, usize::MAX));
    assert!(!mask.contains_pixel(&r(u32::MAX, u32::MAX, u32::MAX, u32::MAX)));
}
