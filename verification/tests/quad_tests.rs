use quadtree::circle::Circle;
use quadtree::point::Point;
use quadtree::quad::Quad;

#[test]
fn test_insert_and_get() {
    let mut quad = Quad::from(Point { x: 0, y: 0 }, Point { x: 100, y: 100 }, 4);

    let existant_point = Point { x: 5, y: 5 };
    let nonexistant_point = Point { x: 7, y: 7 };

    quad.insert(&existant_point);

    let existant_point_search = quad.search(&existant_point);
    let non_existant_point_search = quad.search(&nonexistant_point);

    assert_eq!(existant_point_search, true);
    assert_eq!(non_existant_point_search, false);
}

#[test]
fn test_insert_and_remove() {
    let mut quad = Quad::from(Point { x: 0, y: 0 }, Point { x: 100, y: 100 }, 4);

    let point = Point { x: 5, y: 5 };

    quad.insert(&point);
    quad.delete(&point);

    let point_search = quad.search(&point);

    assert_eq!(point_search, false);
}

#[test]
fn test_insert_and_get_with_subdivide() {
    let mut quad = Quad::from(Point { x: 0, y: 0 }, Point { x: 100, y: 100 }, 1);

    let existant_point = Point { x: 5, y: 5 };
    let nonexistant_point = Point { x: 7, y: 7 };

    quad.insert(&existant_point);

    let existant_point_search = quad.search(&existant_point);
    let non_existant_point_search = quad.search(&nonexistant_point);

    assert_eq!(existant_point_search, true);
    assert_eq!(non_existant_point_search, false);
}

#[test]
fn test_insert_and_remove_with_subdivide() {
    let mut quad = Quad::from(Point { x: 0, y: 0 }, Point { x: 100, y: 100 }, 1);

    let point = Point { x: 5, y: 5 };

    quad.insert(&point);
    quad.delete(&point);

    let point_search = quad.search(&point);

    assert_eq!(point_search, false);
}

#[test]
fn test_find_within_valid_range() {
    let mut quad = Quad::from(Point { x: 0, y: 0 }, Point { x: 100, y: 100 }, 1);

    let point = Point { x: 5, y: 5 };

    quad.insert(&point);

    let circle = Circle {
        center: Point { x: 0, y: 0 },
        radius: 10,
    };

    let points = quad.find_within_range(&circle);

    assert_eq!(points.len(), 1);
    assert_eq!(points[0], point);
}

#[test]
fn test_find_within_invalid_range() {
    let mut quad = Quad::from(Point { x: 0, y: 0 }, Point { x: 100, y: 100 }, 1);

    let point = Point { x: 5, y: 5 };

    quad.insert(&point);

    let circle = Circle {
        center: Point { x: 0, y: 0 },
        radius: 1,
    };

    let points = quad.find_within_range(&circle);

    assert_eq!(points.len(), 0);
}

#[test]
fn test_boundary_points_are_stored() {
    // Every edge of the border is inclusive: corner and edge points are
    // stored and found again.
    let mut quad = Quad::from(Point { x: 0, y: 0 }, Point { x: 100, y: 100 }, 2);

    let on_border = [
        Point { x: 0, y: 0 },
        Point { x: 100, y: 100 },
        Point { x: 0, y: 100 },
        Point { x: 100, y: 0 },
        Point { x: 0, y: 37 },
        Point { x: 100, y: 41 },
        Point { x: 52, y: 0 },
        Point { x: 63, y: 100 },
    ];
    for p in on_border.iter() {
        quad.insert(p);
    }
    for p in on_border.iter() {
        assert!(quad.search(p));
    }
}

#[test]
fn test_out_of_bounds_insert_is_noop() {
    // A point strictly outside the border is silently dropped: a later
    // search misses it and the stored-point count is unchanged.
    let mut quad = Quad::from(Point { x: 0, y: 0 }, Point { x: 100, y: 100 }, 2);
    quad.insert(&Point { x: 10, y: 10 });
    quad.insert(&Point { x: 90, y: 90 });

    let everything = Circle {
        center: Point { x: 50, y: 50 },
        radius: 100,
    };
    let before = quad.find_within_range(&everything).len();

    let outside = [
        Point { x: 101, y: 50 },
        Point { x: -1, y: 50 },
        Point { x: 50, y: 101 },
        Point { x: 50, y: -1 },
    ];
    for p in outside.iter() {
        quad.insert(p);
        assert!(!quad.search(p));
    }

    let after = quad.find_within_range(&everything).len();
    assert_eq!(before, after);
}

#[test]
fn test_insert_delete_then_search_is_false() {
    // Inserting and then deleting a point leaves it absent, also deep in
    // a subdivided tree.
    let mut quad = Quad::from(Point { x: 0, y: 0 }, Point { x: 100, y: 100 }, 1);
    quad.insert(&Point { x: 3, y: 3 });
    quad.insert(&Point { x: 4, y: 4 });
    quad.insert(&Point { x: 5, y: 5 });

    quad.delete(&Point { x: 4, y: 4 });

    assert!(!quad.search(&Point { x: 4, y: 4 }));
    assert!(quad.search(&Point { x: 3, y: 3 }));
    assert!(quad.search(&Point { x: 5, y: 5 }));
}

#[test]
fn test_subdivision_triggers_at_capacity_plus_one() {
    // A fresh leaf absorbs exactly `capacity` points; the next distinct
    // in-border point forces the one-time subdivision into four children.
    let mut quad = Quad::from(Point { x: 0, y: 0 }, Point { x: 100, y: 100 }, 3);

    quad.insert(&Point { x: 10, y: 10 });
    quad.insert(&Point { x: 20, y: 80 });
    quad.insert(&Point { x: 80, y: 20 });

    let dump = quad.get_all_quads();
    assert!(dump.top_left.is_none());
    assert!(dump.top_right.is_none());
    assert!(dump.bottom_left.is_none());
    assert!(dump.bottom_right.is_none());
    assert_eq!(dump.points.len(), 3);

    quad.insert(&Point { x: 80, y: 80 });

    let dump = quad.get_all_quads();
    assert!(dump.top_left.is_some());
    assert!(dump.top_right.is_some());
    assert!(dump.bottom_left.is_some());
    assert!(dump.bottom_right.is_some());
    assert_eq!(dump.points.len(), 0);
}

#[test]
fn test_duplicate_insert_is_stored_once() {
    // Points are indistinguishable beyond their coordinates: inserting
    // the same point again changes nothing, even at a full leaf.
    let mut quad = Quad::from(Point { x: 0, y: 0 }, Point { x: 100, y: 100 }, 1);
    let point = Point { x: 5, y: 5 };

    quad.insert(&point);
    quad.insert(&point);

    let dump = quad.get_all_quads();
    assert!(dump.top_left.is_none());

    let everything = Circle {
        center: Point { x: 50, y: 50 },
        radius: 100,
    };
    let points = quad.find_within_range(&everything);
    assert_eq!(points, vec![point]);
}

#[test]
fn test_range_query_finds_deep_points() {
    // A circle covering a stored point always reports it, however many
    // subdivisions lie between the root and the storing leaf.
    let mut quad = Quad::from(Point { x: 0, y: 0 }, Point { x: 100, y: 100 }, 1);
    let cluster = [
        Point { x: 1, y: 1 },
        Point { x: 2, y: 2 },
        Point { x: 3, y: 3 },
        Point { x: 4, y: 4 },
        Point { x: 5, y: 5 },
        Point { x: 6, y: 6 },
    ];
    for p in cluster.iter() {
        quad.insert(p);
    }

    let circle = Circle {
        center: Point { x: 0, y: 0 },
        radius: 9,
    };
    let mut found = quad.find_within_range(&circle);
    found.sort_by_key(|p| p.x);
    assert_eq!(found, cluster.to_vec());
}

#[test]
fn test_get_all_quads_dump_shape() {
    let mut quad = Quad::from(Point { x: 0, y: 0 }, Point { x: 100, y: 100 }, 1);
    quad.insert(&Point { x: 10, y: 10 });
    quad.insert(&Point { x: 90, y: 10 });

    let dump = quad.get_all_quads();
    assert!(!dump.is_child);
    assert_eq!(dump.points.len(), 0);

    let top_left = dump.top_left.as_ref().unwrap();
    let top_right = dump.top_right.as_ref().unwrap();
    assert!(top_left.is_child);
    assert!(top_right.is_child);
    assert_eq!(top_left.points, vec![Point { x: 10, y: 10 }]);
    assert_eq!(top_right.points, vec![Point { x: 90, y: 10 }]);
    assert_eq!(dump.bottom_left.as_ref().unwrap().points.len(), 0);
    assert_eq!(dump.bottom_right.as_ref().unwrap().points.len(), 0);
}

#[test]
fn test_extreme_coordinates() {
    // The full i64 range is usable: midpoints and squared distances are
    // computed in wider integers internally.
    let mut quad = Quad::from(
        Point {
            x: i64::MIN,
            y: i64::MIN,
        },
        Point {
            x: i64::MAX,
            y: i64::MAX,
        },
        1,
    );
    let far_low = Point {
        x: i64::MIN,
        y: i64::MIN,
    };
    let far_high = Point {
        x: i64::MAX,
        y: i64::MAX,
    };
    quad.insert(&far_low);
    quad.insert(&far_high);
    assert!(quad.search(&far_low));
    assert!(quad.search(&far_high));

    let circle = Circle {
        center: far_high,
        radius: i64::MAX,
    };
    let found = quad.find_within_range(&circle);
    assert_eq!(found, vec![far_high]);
}

#[test]
fn test_new_quad_has_zero_border_and_capacity_one() {
    // The default tree is a capacity-one leaf over the single point
    // (0, 0); only that point can ever be stored, and storing it again
    // changes nothing.
    let mut quad = Quad::new();
    assert!(!quad.search(&Point { x: 0, y: 0 }));

    quad.insert(&Point { x: 1, y: 1 });
    assert!(!quad.search(&Point { x: 1, y: 1 }));

    quad.insert(&Point { x: 0, y: 0 });
    assert!(quad.search(&Point { x: 0, y: 0 }));

    quad.insert(&Point { x: 0, y: 0 });
    let dump = quad.get_all_quads();
    assert!(dump.top_left.is_none());
    assert_eq!(dump.points, vec![Point { x: 0, y: 0 }]);
}
