use quadtree::circle::Circle;
use quadtree::point::Point;
use quadtree::rectangle::{midpoint, Rectangle};

#[test]
fn test_circle_contains_compares_squared_distance() {
    let circle = Circle {
        center: Point { x: 0, y: 0 },
        radius: 5,
    };
    // 3*3 + 4*4 == 25 == 5*5: the boundary is inclusive.
    assert!(circle.contains(&Point { x: 3, y: 4 }));
    assert!(circle.contains(&Point { x: -3, y: -4 }));
    assert!(circle.contains(&Point { x: 5, y: 0 }));
    // 4*4 + 4*4 == 32 > 25.
    assert!(!circle.contains(&Point { x: 4, y: 4 }));
}

#[test]
fn test_circle_intersects_uses_nearest_rectangle_point() {
    let rectangle = Rectangle::from(&Point { x: 10, y: 10 }, &Point { x: 20, y: 20 });
    // The nearest rectangle point to the origin is (10, 10), at squared
    // distance 200; 14*14 == 196 misses, 15*15 == 225 reaches.
    let close = Circle {
        center: Point { x: 0, y: 0 },
        radius: 15,
    };
    let far = Circle {
        center: Point { x: 0, y: 0 },
        radius: 14,
    };
    assert!(close.intersects(&rectangle));
    assert!(!far.intersects(&rectangle));

    // A center inside the rectangle always intersects, whatever the
    // radius.
    let inside = Circle {
        center: Point { x: 15, y: 15 },
        radius: 0,
    };
    assert!(inside.intersects(&rectangle));

    // Straight above the rectangle the nearest point is on the top edge,
    // not a corner: distance 5, not the corner distance.
    let above = Circle {
        center: Point { x: 15, y: 5 },
        radius: 5,
    };
    assert!(above.intersects(&rectangle));
    let above_short = Circle {
        center: Point { x: 15, y: 5 },
        radius: 4,
    };
    assert!(!above_short.intersects(&rectangle));
}

#[test]
fn test_rectangle_constructors_store_corners_verbatim() {
    let zero = Rectangle::new();
    assert_eq!(zero.top_left, Point { x: 0, y: 0 });
    assert_eq!(zero.bottom_right, Point { x: 0, y: 0 });

    let rect = Rectangle::from(&Point { x: -7, y: 3 }, &Point { x: 9, y: 11 });
    assert_eq!(rect.top_left, Point { x: -7, y: 3 });
    assert_eq!(rect.bottom_right, Point { x: 9, y: 11 });
}

#[test]
fn test_midpoint_rounds_down() {
    assert_eq!(midpoint(0, 100), 50);
    assert_eq!(midpoint(0, 101), 50);
    assert_eq!(midpoint(4, 5), 4);
    assert_eq!(midpoint(-5, 0), -3);
    assert_eq!(midpoint(7, 7), 7);
    assert_eq!(midpoint(i64::MIN, i64::MAX), -1);
}
