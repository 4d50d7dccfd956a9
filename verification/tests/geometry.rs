use quickview::geometry::{Point, Rect};

#[test]
fn from_points_normalizes_corners() {
    let r = Rect::from_points(Point { x: 10, y: 2 }, Point { x: 4, y: 8 });
    assert_eq!(r, Rect { x: 4, y: 2, w: 6, h: 6, den_x: 1, den_y: 1 });
    assert!(r.contains(Point { x: 10, y: 2 }));
    assert!(r.contains(Point { x: 4, y: 8 }));
    assert!(!r.contains(Point { x: 11, y: 2 }));
    let far = Rect::from_points(Point { x: i64::MIN, y: 0 }, Point { x: i64::MAX, y: 0 });
    assert_eq!(far.w, i64::MAX);
}

#[test]
fn intersection_is_strict_and_symmetric() {
    let a = Rect { x: 0, y: 0, w: 10, h: 10, den_x: 1, den_y: 1 };
    let b = Rect { x: 10, y: 0, w: 5, h: 5, den_x: 1, den_y: 1 };
    assert!(!a.intersects(&b));
    assert!(!b.intersects(&a));
    let c = Rect { x: 9, y: 9, w: 0, h: 0, den_x: 1, den_y: 1 };
    assert!(a.intersects(&c));
    assert!(c.intersects(&a));
    let huge = Rect { x: i64::MAX, y: i64::MAX, w: i64::MAX, h: i64::MAX, den_x: 1, den_y: 1 };
    assert!(!a.intersects(&huge));
}

#[test]
fn fractional_boxes_compare_exactly() {
    // 1.5 .. 2.5 horizontally, 0 .. 1 vertically.
    let half = Rect { x: 3, y: 0, w: 2, h: 2, den_x: 2, den_y: 2 };
    let pixel = Rect { x: 2, y: 0, w: 1, h: 1, den_x: 1, den_y: 1 };
    assert!(half.intersects(&pixel));
    assert!(pixel.intersects(&half));
    // 0 .. 1.5 only touches 1.5 .. 2.5.
    let left = Rect { x: 0, y: 0, w: 3, h: 2, den_x: 2, den_y: 2 };
    assert!(!left.intersects(&half));
    assert!(left.intersects(&Rect { x: 1, y: 0, w: 1, h: 1, den_x: 1, den_y: 1 }));
    assert!(half.contains(Point { x: 2, y: 1 }));
    assert!(!half.contains(Point { x: 1, y: 0 }));
}
