use quadtree::circle::Circle;
use quadtree::point::Point;
use quadtree::quad::Quad;
use quadtree::shared::SharedQuad;

#[test]
fn test_shared_quad_serializes_operations() {
    let quad = Quad::from(Point { x: 0, y: 0 }, Point { x: 100, y: 100 }, 2);
    let shared = SharedQuad::new(quad);

    shared.insert(Point { x: 5, y: 5 });
    shared.insert(Point { x: 60, y: 60 });

    assert!(shared.search(Point { x: 5, y: 5 }));
    assert!(!shared.search(Point { x: 6, y: 6 }));

    let circle = Circle {
        center: Point { x: 0, y: 0 },
        radius: 10,
    };
    let found = shared.find_within_range(circle);
    assert_eq!(found, vec![Point { x: 5, y: 5 }]);

    shared.delete(Point { x: 5, y: 5 });
    assert!(!shared.search(Point { x: 5, y: 5 }));

    let dump = shared.get_all_quads();
    assert!(!dump.is_child);
    assert!(dump.top_left.is_none());
}

#[test]
fn test_shared_quad_reads_between_writes() {
    let quad = Quad::from(Point { x: 0, y: 0 }, Point { x: 10, y: 10 }, 1);
    let shared = SharedQuad::new(quad);

    shared.insert(Point { x: 1, y: 1 });
    shared.insert(Point { x: 9, y: 9 });
    shared.insert(Point { x: 9, y: 1 });

    assert!(shared.search(Point { x: 1, y: 1 }));
    assert!(shared.search(Point { x: 9, y: 9 }));
    assert!(shared.search(Point { x: 9, y: 1 }));
    assert!(!shared.search(Point { x: 5, y: 5 }));
}
