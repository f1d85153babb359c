use svg_hit::{split_horizontal, split_vertical, PixelRect};

fn r(x: u32, y: u32, w: u32, h: u32) -> PixelRect {
    PixelRect::from_min_size(x, y, w, h)
}

#[test]
fn do_split_horizontal() {
    let rect = r(0, 0, 10, 5);
    let [left, right] = split_horizontal(&rect);
    assert_eq!(left, r(0, 0, 5, 5));
    assert_eq!(right, r(5, 0, 5, 5));

    let rect = r(0, 0, 5, 3);
    let [left, right] = split_horizontal(&rect);
    assert_eq!(left, r(0, 0, 2, 3));
    assert_eq!(right, r(2, 0, 3, 3));

    let rect = r(100, 200, 10, 5);
    let [left, right] = split_horizontal(&rect);
    assert_eq!(left, r(100, 200, 5, 5));
    assert_eq!(right, r(105, 200, 5, 5));
}

#[test]
fn do_split_vertical() {
    let rect = r(0, 0, 10, 20);
    let [left, right] = split_vertical(&rect);
    assert_eq!(left, r(0, 0, 10, 10));
    assert_eq!(right, r(0, 10, 10, 10));

    let rect = r(0, 0, 10, 11);
    let [left, right] = split_vertical(&rect);
    assert_eq!(left, r(0, 0, 10, 5));
    assert_eq!(right, r(0, 5, 10, 6));

    let rect = r(100, 200, 10, 5);
    let [left, right] = split_vertical(&rect);
    assert_eq!(left, r(100, 200, 10, 2));
    assert_eq!(right, r(100, 202, 10, 3));
}

#[test]
fn split_of_four_by_three_example() {
    let [left, right] = split_horizontal(&r(0, 0, 4, 3));
    assert_eq!(left, r(0, 0, 2, 3));
    assert_eq!(right, r(2, 0, 2, 3));
}

#[test]
fn intersect_clips_and_detects_disjoint() {
    let a = r(0, 0, 5, 5);
    assert_eq!(a.intersect(&r(3, 2, 10, 10)), r(3, 2, 2, 3));
    assert!(a.intersect(&r(10, 10, 20, 20)).is_empty());
    assert!(!a.intersects(&r(5, 0, 1, 1)));
    assert!(a.intersects(&r(4, 4, 1, 1)));
    assert!(a.contains_rect(&r(1, 1, 4, 4)));
    assert!(!a.contains_rect(&r(1, 1, 5, 4)));
    assert!(a.contains_rect(&r(9, 9, 0, 3)));
}

#[test]
fn intersect_near_the_coordinate_limit() {
    let a = r(u32::MAX - 1, 0, u32::MAX, 2);
    let b = r(u32::MAX - 3, 1, 3, 5);
    assert_eq!(a.intersect(&b), r(u32::MAX - 1, 1, 1, 1));
}
