use quadtree::{Circle, Point, QuadTree, Rectangle, Region, Shape};

fn contains_point(v: &[Point], p: Point) -> bool {
    v.iter().any(|q| *q == p)
}

fn count_point(v: &[Point], p: Point) -> usize {
    v.iter().filter(|q| **q == p).count()
}

fn sample_tree() -> QuadTree {
    let mut t = QuadTree::new(Rectangle::new(0, 0, 100, 100), 1);
    assert!(t.insert(&Point::new(1, 1)));
    assert!(t.insert(&Point::new(2, 2)));
    assert!(t.insert(&Point::new(-50, -50)));
    t
}

#[test]
fn rectangle_contains_is_half_open() {
    let r = Rectangle::new(0, 0, 10, 10);
    assert!(r.contains(&Point::new(-10, -10)));
    assert!(r.contains(&Point::new(9, 9)));
    assert!(!r.contains(&Point::new(10, 0)));
    assert!(!r.contains(&Point::new(0, 10)));
    assert!(!r.contains(&Point::new(-11, 0)));
}

#[test]
fn rectangle_intersects_touching_edges() {
    let a = Rectangle::new(0, 0, 10, 10);
    let b = Rectangle::new(20, 0, 10, 10);
    let c = Rectangle::new(21, 0, 10, 10);
    assert!(a.intersects(&b));
    assert!(!a.intersects(&c));
    assert!(a.intersects(&Rectangle::new(3, -4, 1, 1)));
}

#[test]
fn rectangle_intersects_is_symmetric() {
    let rs = [
        Rectangle::new(0, 0, 10, 10),
        Rectangle::new(20, 0, 10, 10),
        Rectangle::new(21, 5, 10, 3),
        Rectangle::new(-7, 12, 0, 0),
        Rectangle::new(3, 3, 1, 20),
    ];
    for a in rs.iter() {
        for b in rs.iter() {
            assert_eq!(a.intersects(b), b.intersects(a));
        }
    }
}

#[test]
fn circle_new_caches_square() {
    let c = Circle::new(3, -4, 7);
    assert_eq!(c.r_squared, 49);
    assert_eq!(Circle::new(0, 0, u32::MAX).r_squared, (u32::MAX as u64) * (u32::MAX as u64));
}

#[test]
fn circle_rim_is_excluded() {
    let c = Circle::new(0, 0, 5);
    assert!(!c.contains(&Point::new(3, 4)));
    assert!(!c.contains(&Point::new(5, 0)));
    assert!(!c.contains(&Point::new(0, -5)));
    assert!(c.contains(&Point::new(4, 0)));
    assert!(c.contains(&Point::new(3, 3)));
}

#[test]
fn circle_intersects_three_cases() {
    let c = Circle::new(0, 0, 5);
    // too far along x
    assert!(!c.intersects(&Rectangle::new(20, 0, 10, 10)));
    // center's projection within the rectangle's span
    assert!(c.intersects(&Rectangle::new(14, 0, 10, 10)));
    assert!(c.intersects(&Rectangle::new(0, 30, 2, 26)));
    // corner case: nearest corner at (3, 4), exactly on the rim
    assert!(c.intersects(&Rectangle::new(4, 5, 1, 1)));
    // nearest corner at (4, 4): 32 > 25
    assert!(!c.intersects(&Rectangle::new(5, 5, 1, 1)));
}

#[test]
fn circle_far_apart_does_not_overflow() {
    let c = Circle::new(i32::MIN, i32::MIN, u32::MAX);
    assert!(!c.contains(&Point::new(i32::MAX, i32::MAX)));
    assert!(c.contains(&Point::new(i32::MIN + 5, i32::MIN)));
    assert!(!c.intersects(&Rectangle::new(i32::MAX - 1, i32::MAX - 1, 1, 1)));
}

#[test]
fn example_rectangle_and_circle_queries() {
    let t = sample_tree();
    let mut r = t.query(&Rectangle::new(0, 0, 10, 10));
    r.sort_by_key(|p| (p.x, p.y));
    assert_eq!(r, vec![Point::new(1, 1), Point::new(2, 2)]);
    let mut c5 = t.query(&Circle::new(0, 0, 5));
    c5.sort_by_key(|p| (p.x, p.y));
    assert_eq!(c5, vec![Point::new(1, 1), Point::new(2, 2)]);
    assert!(t.query(&Circle::new(0, 0, 1)).is_empty());
}

#[test]
fn query_over_boundary_finds_each_inserted_point_once() {
    let boundary = Rectangle::new(0, 0, 64, 64);
    let mut t = QuadTree::new(boundary, 2);
    let pts = [
        Point::new(-64, -64),
        Point::new(63, 63),
        Point::new(0, 0),
        Point::new(-1, 0),
        Point::new(0, -1),
        Point::new(17, -30),
        Point::new(-5, 40),
        Point::new(32, 32),
        Point::new(31, 31),
    ];
    for p in pts.iter() {
        assert!(t.insert(p));
    }
    let all = t.query(&boundary);
    assert_eq!(all.len(), pts.len());
    for p in pts.iter() {
        assert_eq!(count_point(&all, *p), 1);
    }
}

#[test]
fn outside_point_is_rejected_and_never_found() {
    let boundary = Rectangle::new(0, 0, 10, 10);
    let mut t = QuadTree::new(boundary, 1);
    assert!(t.insert(&Point::new(1, 1)));
    let outside = Point::new(10, 3);
    assert!(!t.insert(&outside));
    assert!(!t.insert(&Point::new(-11, 0)));
    assert_eq!(t.points().len(), 1);
    assert!(!t.is_subdivided());
    assert!(!contains_point(&t.query(&boundary), outside));
    assert!(!contains_point(&t.query(&Rectangle::new(10, 3, 50, 50)), outside));
    assert!(!contains_point(&t.query(&Circle::new(10, 3, 100)), outside));
}

#[test]
fn query_returns_only_matching_inserted_points() {
    let mut t = QuadTree::new(Rectangle::new(0, 0, 32, 32), 1);
    let pts = [
        Point::new(1, 1),
        Point::new(-3, 7),
        Point::new(20, -20),
        Point::new(5, 5),
        Point::new(-30, -30),
        Point::new(6, -1),
    ];
    for p in pts.iter() {
        assert!(t.insert(p));
    }
    let region = Circle::new(2, 2, 6);
    let found = t.query(&region);
    for p in found.iter() {
        assert!(contains_point(&pts, *p));
        assert!(region.contains(p));
    }
    for p in pts.iter() {
        assert_eq!(contains_point(&found, *p), region.contains(p));
    }
    assert_eq!(found.len(), 3);
}

#[test]
fn full_node_splits_without_moving_its_points() {
    let mut t = QuadTree::new(Rectangle::new(0, 0, 16, 16), 2);
    assert!(t.insert(&Point::new(1, 1)));
    assert!(t.insert(&Point::new(-1, -1)));
    assert!(!t.is_subdivided());
    assert_eq!(t.points().len(), 2);
    assert!(t.insert(&Point::new(5, 5)));
    assert!(t.is_subdivided());
    assert_eq!(t.points(), &vec![Point::new(1, 1), Point::new(-1, -1)]);
    let se = t.child(true, true).unwrap();
    assert_eq!(se.points(), &vec![Point::new(5, 5)]);
    assert!(t.child(false, false).unwrap().points().is_empty());
}

#[test]
fn subdivide_is_idempotent_and_keeps_points() {
    let mut t = QuadTree::new(Rectangle::new(0, 0, 8, 8), 3);
    assert!(t.insert(&Point::new(2, 2)));
    t.subdivide();
    assert!(t.is_subdivided());
    assert!(t.insert(&Point::new(3, 3)));
    assert_eq!(t.points().len(), 2);
    t.subdivide();
    assert_eq!(t.points().len(), 2);
    assert!(t.child(true, true).unwrap().points().is_empty());
}

#[test]
fn quadrants_of_ten_by_ten_tile_the_parent() {
    let mut t = QuadTree::new(Rectangle::new(0, 0, 10, 10), 4);
    t.subdivide();
    let nw = t.child(false, false).unwrap().boundary();
    let ne = t.child(true, false).unwrap().boundary();
    let sw = t.child(false, true).unwrap().boundary();
    let se = t.child(true, true).unwrap().boundary();
    assert_eq!(nw, Rectangle::new(-5, -5, 5, 5));
    assert_eq!(ne, Rectangle::new(5, -5, 5, 5));
    assert_eq!(sw, Rectangle::new(-5, 5, 5, 5));
    assert_eq!(se, Rectangle::new(5, 5, 5, 5));
    for c in [&nw, &ne, &sw, &se] {
        assert_eq!(t.child(false, false).unwrap().capacity(), 4);
        assert_eq!(c.w, 5);
    }
    let parent = t.boundary();
    for x in -12..12 {
        for y in -12..12 {
            let p = Point::new(x, y);
            let n = [&nw, &ne, &sw, &se].iter().filter(|q| q.contains(&p)).count();
            if parent.contains(&p) {
                assert_eq!(n, 1);
            } else {
                assert_eq!(n, 0);
            }
        }
    }
}

#[test]
fn zero_capacity_stores_nothing() {
    let mut t = QuadTree::new(Rectangle::new(0, 0, 8, 8), 0);
    assert!(!t.insert(&Point::new(1, 1)));
    assert!(!t.insert(&Point::new(-8, -8)));
    assert!(t.points().is_empty());
    assert!(t.is_subdivided());
    assert!(t.query(&Rectangle::new(0, 0, 8, 8)).is_empty());
}

#[test]
fn odd_sides_split_without_a_gap() {
    // half-extent 1: a two-by-two region whose quadrants are single cells
    let mut t = QuadTree::new(Rectangle::new(0, 0, 1, 1), 1);
    assert!(t.insert(&Point::new(0, 0)));
    assert!(t.insert(&Point::new(-1, -1)));
    assert!(t.insert(&Point::new(0, -1)));
    assert!(t.insert(&Point::new(-1, 0)));
    assert_eq!(t.query(&Rectangle::new(0, 0, 1, 1)).len(), 4);
}

#[test]
fn deep_split_of_odd_half_extent_keeps_every_point() {
    let boundary = Rectangle::new(0, 0, 100, 100);
    let mut t = QuadTree::new(boundary, 1);
    for i in 1..5 {
        assert!(t.insert(&Point::new(i, i)));
    }
    // the second level has half-extent 25, whose quadrants are uneven
    assert!(t.insert(&Point::new(0, 0)));
    let all = t.query(&boundary);
    assert_eq!(all.len(), 5);
    assert_eq!(count_point(&all, Point::new(0, 0)), 1);
    for x in -100..100 {
        let p = Point::new(x, x / 3);
        assert!(t.insert(&p));
    }
    assert_eq!(t.query(&boundary).len(), 205);
}

#[test]
fn equal_points_are_kept_each_time() {
    let mut t = QuadTree::new(Rectangle::new(0, 0, 4, 4), 1);
    for _ in 0..3 {
        assert!(t.insert(&Point::new(1, 1)));
    }
    assert_eq!(count_point(&t.query(&Rectangle::new(0, 0, 4, 4)), Point::new(1, 1)), 3);
}

#[test]
fn widest_boundary_accepts_extreme_points() {
    let boundary = Rectangle::new(0, 0, i32::MAX as u32, i32::MAX as u32);
    let mut t = QuadTree::new(boundary, 1);
    assert!(t.insert(&Point::new(-i32::MAX, -i32::MAX)));
    assert!(!t.insert(&Point::new(i32::MAX, 0)));
    assert!(t.insert(&Point::new(i32::MAX - 1, i32::MAX - 1)));
    assert!(t.insert(&Point::new(i32::MAX - 2, i32::MAX - 2)));
    assert_eq!(t.query(&boundary).len(), 3);
    assert_eq!(
        t.query(&Circle::new(i32::MAX - 1, i32::MAX - 1, 1)),
        vec![Point::new(i32::MAX - 1, i32::MAX - 1)]
    );
}

#[test]
fn query_skips_subtrees_it_does_not_overlap() {
    let t = sample_tree();
    assert!(t.query(&Rectangle::new(500, 500, 10, 10)).is_empty());
    assert_eq!(t.query(&Circle::new(-50, -50, 1)), vec![Point::new(-50, -50)]);
}

#[test]
fn odd_region_splits_at_its_midpoint() {
    let mut t = QuadTree::new(Rectangle::new(0, 0, 25, 25), 1);
    assert_eq!(t.region(), Region { x0: -25, x1: 25, y0: -25, y1: 25 });
    t.subdivide();
    let se = t.child(true, true).unwrap();
    assert_eq!(se.region(), Region { x0: 0, x1: 25, y0: 0, y1: 25 });
    let mut inner = QuadTree::new(Rectangle::new(0, 0, 25, 25), 4);
    inner.subdivide();
    let ne = inner.child(true, false).unwrap().region();
    assert_eq!(ne, Region { x0: 0, x1: 25, y0: -25, y1: 0 });
    // every point of the region falls in exactly one quadrant
    let mut odd = QuadTree::new(Rectangle::new(0, 0, 25, 25), 0);
    odd.subdivide();
    let mut leaf_points = 0;
    for x in -25..25 {
        for y in -25..25 {
            let p = Point::new(x, y);
            let n = [(false, false), (true, false), (false, true), (true, true)]
                .iter()
                .filter(|(e, s)| odd.child(*e, *s).unwrap().region().contains(&p))
                .count();
            assert_eq!(n, 1);
            leaf_points += n;
        }
    }
    assert_eq!(leaf_points, 2500);
    assert_eq!(se.boundary(), Rectangle::new(13, 13, 13, 13));
}
