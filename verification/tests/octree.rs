use oct_tree::aabb::Aabb;
use oct_tree::oct_tree::OctTree;
use oct_tree::point::Point;

fn cube(x: i64, y: i64, z: i64, half: i64) -> Aabb {
    Aabb::new(Point::new(x, y, z), half)
}

fn sorted_triples(points: &[Point]) -> Vec<(i64, i64, i64)> {
    let mut v: Vec<(i64, i64, i64)> = points.iter().map(|p| (p.x, p.y, p.z)).collect();
    v.sort();
    v
}

#[test]
fn contains_closed_low_open_high() {
    let c = cube(0, 0, 0, 10);
    assert!(c.contains(&Point::new(9, 9, 9)));
    assert!(c.contains(&Point::new(-10, -10, -10)));
    assert!(c.contains(&Point::new(0, 0, 0)));
    assert!(!c.contains(&Point::new(10, 0, 0)));
    assert!(!c.contains(&Point::new(0, 10, 0)));
    assert!(!c.contains(&Point::new(0, 0, 10)));
    assert!(!c.contains(&Point::new(11, 0, 0)));
    assert!(!c.contains(&Point::new(-11, 0, 0)));
}

#[test]
fn intersects_is_symmetric() {
    let a = cube(0, 0, 0, 10);
    let b = cube(15, 0, 0, 6);
    let far = cube(100, 100, 100, 5);
    assert!(a.intersects(&b));
    assert!(b.intersects(&a));
    assert!(!a.intersects(&far));
    assert!(!far.intersects(&a));
    // touching faces of half-open cubes do not overlap
    let touch = cube(20, 0, 0, 10);
    assert!(!a.intersects(&touch));
    assert!(!touch.intersects(&a));
}

#[test]
fn fifth_insert_subdivides() {
    // root cube centered at the origin with half-size 1000 and capacity 4;
    // the fifth insertion forces a subdivision and redistribution.
    let mut t = OctTree::new(cube(0, 0, 0, 1000), 4);
    for i in 1..=4i64 {
        t.insert(&Point::new(i, i, i));
        assert!(!t.divided);
        assert_eq!(t.points.len(), i as usize);
    }
    t.insert(&Point::new(5, 5, 5));
    assert!(t.divided);
    assert!(t.points.is_empty());
    let mut found: Vec<Point> = Vec::new();
    t.query(&cube(0, 0, 0, 1000), &mut found);
    assert_eq!(
        sorted_triples(&found),
        vec![(1, 1, 1), (2, 2, 2), (3, 3, 3), (4, 4, 4), (5, 5, 5)]
    );
    // all five lie in the all-positive octant, so its child received them
    let fse = t.fse.as_ref().expect("divided node has children");
    let mut in_child: Vec<Point> = Vec::new();
    fse.query(&cube(0, 0, 0, 1000), &mut in_child);
    assert_eq!(in_child.len(), 5);
}

#[test]
fn query_returns_only_points_in_range() {
    // a range cube of half-size 50 about the origin picks out exactly the
    // points inside it
    let mut t = OctTree::new(cube(0, 0, 0, 1000), 4);
    let inside = [(10, 10, 10), (20, -20, 0), (-49, 3, 49)];
    let outside = [(100, 100, 100), (700, -300, 2), (0, 0, 60), (50, 0, 0)];
    for &(x, y, z) in inside.iter().chain(outside.iter()) {
        t.insert(&Point::new(x, y, z));
    }
    let mut found: Vec<Point> = Vec::new();
    t.query(&cube(0, 0, 0, 50), &mut found);
    let mut want: Vec<(i64, i64, i64)> = inside.to_vec();
    want.sort();
    assert_eq!(sorted_triples(&found), want);
}

#[test]
fn disjoint_range_returns_nothing() {
    let mut t = OctTree::new(cube(0, 0, 0, 1000), 4);
    for i in 0..20i64 {
        t.insert(&Point::new(i * 7 - 70, i * 3, -i));
    }
    let mut found: Vec<Point> = Vec::new();
    t.query(&cube(3000, 0, 0, 10), &mut found);
    assert!(found.is_empty());
}

#[test]
fn out_of_bounds_point_is_dropped() {
    let mut t = OctTree::new(cube(0, 0, 0, 100), 4);
    t.insert(&Point::new(500, 0, 0));
    t.insert(&Point::new(1, 2, 3));
    let mut found: Vec<Point> = Vec::new();
    t.query(&cube(0, 0, 0, 100), &mut found);
    assert_eq!(sorted_triples(&found), vec![(1, 2, 3)]);
}

#[test]
fn subdivide_halves_the_cube() {
    // the eight children tile the parent: half the half-size, centers
    // offset by half the parent's half-size
    let mut t = OctTree::new(cube(0, 0, 0, 100), 4);
    t.subdivide();
    assert!(t.divided);
    let fne = t.fne.as_ref().unwrap();
    assert_eq!(fne.boundary, cube(50, -50, 50, 50));
    assert_eq!(fne.capacity, 4);
    let fnw = t.fnw.as_ref().unwrap();
    assert_eq!(fnw.boundary, cube(-50, -50, 50, 50));
    let fse = t.fse.as_ref().unwrap();
    assert_eq!(fse.boundary, cube(50, 50, 50, 50));
    let fsw = t.fsw.as_ref().unwrap();
    assert_eq!(fsw.boundary, cube(-50, 50, 50, 50));
    let bne = t.bne.as_ref().unwrap();
    assert_eq!(bne.boundary, cube(50, -50, -50, 50));
    let bnw = t.bnw.as_ref().unwrap();
    assert_eq!(bnw.boundary, cube(-50, -50, -50, 50));
    let bse = t.bse.as_ref().unwrap();
    assert_eq!(bse.boundary, cube(50, 50, -50, 50));
    let bsw = t.bsw.as_ref().unwrap();
    assert_eq!(bsw.boundary, cube(-50, 50, -50, 50));
}

#[test]
fn point_on_partition_plane_lands_in_one_child() {
    // the origin lies on all three partition planes of the root; with
    // half-open cubes exactly one child owns it, so no query duplicates it
    let mut t = OctTree::new(cube(0, 0, 0, 100), 2);
    t.insert(&Point::new(0, 0, 0));
    t.insert(&Point::new(-30, -30, -30));
    t.insert(&Point::new(30, 30, 30));
    assert!(t.divided);
    let mut found: Vec<Point> = Vec::new();
    t.query(&cube(0, 0, 0, 100), &mut found);
    assert_eq!(found.len(), 3);
    assert_eq!(
        sorted_triples(&found),
        vec![(-30, -30, -30), (0, 0, 0), (30, 30, 30)]
    );
}

#[test]
fn coincident_points_overflow_at_minimum_granularity() {
    // a cube of half-size 1 cannot subdivide, so its buffer may exceed the
    // capacity instead of recursing forever
    let mut t = OctTree::new(cube(0, 0, 0, 1), 2);
    for _ in 0..5 {
        t.insert(&Point::new(0, 0, 0));
    }
    assert!(!t.divided);
    assert_eq!(t.points.len(), 5);
    let mut found: Vec<Point> = Vec::new();
    t.query(&cube(0, 0, 0, 1), &mut found);
    assert_eq!(found.len(), 5);
}

#[test]
fn serialize_leaf_layout() {
    // header: center x, y, z, half-size, capacity, divided flag, point count
    let t = OctTree::new(cube(1, 2, 3, 4), 7);
    assert_eq!(t.serialize(), vec![1i128, 2, 3, 4, 7, 0, 0]);

    let mut u = OctTree::new(cube(0, 0, 0, 10), 4);
    u.insert(&Point::new(-5, 6, 7));
    assert_eq!(u.serialize(), vec![0i128, 0, 0, 10, 4, 0, 1, -5, 6, 7]);
}

#[test]
fn deserialize_rebuilds_leaf() {
    let words: Vec<i128> = vec![1, 2, 3, 4, 7, 0, 0];
    let t = OctTree::deserialize(&words).expect("a valid encoding deserializes");
    assert_eq!(t.boundary, cube(1, 2, 3, 4));
    assert_eq!(t.capacity, 7);
    assert!(!t.divided);
    assert!(t.points.is_empty());
    assert!(t.fne.is_none() && t.bsw.is_none());
}

#[test]
fn deserialize_rejects_truncated_input() {
    assert!(OctTree::deserialize(&vec![1i128, 2, 3]).is_none());
    let mut words = OctTree::new(cube(0, 0, 0, 8), 2).serialize();
    words.pop();
    assert!(OctTree::deserialize(&words).is_none());
}

#[test]
fn round_trip_preserves_structure() {
    // deserialize(serialize(tree)) reconstructs identical boundary,
    // capacity, points per node and divided flags
    let mut t = OctTree::new(cube(0, 0, 0, 1000), 4);
    let pts = [
        (1, 1, 1),
        (2, 2, 2),
        (3, 3, 3),
        (4, 4, 4),
        (5, 5, 5),
        (-700, 432, -1),
        (0, 0, 0),
        (999, -999, 500),
    ];
    for &(x, y, z) in pts.iter() {
        t.insert(&Point::new(x, y, z));
    }
    let words = t.serialize();
    let back = OctTree::deserialize(&words).expect("round trip succeeds");
    assert_eq!(back.boundary, t.boundary);
    assert_eq!(back.capacity, t.capacity);
    assert_eq!(back.divided, t.divided);
    assert_eq!(back.serialize(), words);
    let mut found_a: Vec<Point> = Vec::new();
    let mut found_b: Vec<Point> = Vec::new();
    t.query(&cube(0, 0, 0, 1000), &mut found_a);
    back.query(&cube(0, 0, 0, 1000), &mut found_b);
    assert_eq!(found_a, found_b);
    assert_eq!(found_a.len(), pts.len());
}

#[test]
fn round_trip_method_returns_identical_tree() {
    let mut t = OctTree::new(cube(0, 0, 0, 64), 1);
    for i in 0..10i64 {
        t.insert(&Point::new(i * 11 % 60 - 30, i * 7 % 60 - 30, i * 3 - 15));
    }
    let r = t.round_trip();
    assert_eq!(r.serialize(), t.serialize());
}

#[test]
fn capacity_zero_subdivides_on_first_insert() {
    let mut t = OctTree::new(cube(0, 0, 0, 16), 0);
    t.insert(&Point::new(3, -3, 3));
    assert!(t.divided);
    let mut found: Vec<Point> = Vec::new();
    t.query(&cube(0, 0, 0, 16), &mut found);
    assert_eq!(sorted_triples(&found), vec![(3, -3, 3)]);
}

#[test]
fn query_appends_in_traversal_order() {
    // self-held points come first, then child octants in fixed order
    let mut t = OctTree::new(cube(0, 0, 0, 100), 8);
    t.insert(&Point::new(1, 1, 1));
    t.insert(&Point::new(-2, -2, -2));
    let mut found: Vec<Point> = vec![Point::new(77, 77, 77)];
    t.query(&cube(0, 0, 0, 100), &mut found);
    assert_eq!(found.len(), 3);
    assert_eq!((found[0].x, found[0].y, found[0].z), (77, 77, 77));
    assert_eq!((found[1].x, found[1].y, found[1].z), (1, 1, 1));
    assert_eq!((found[2].x, found[2].y, found[2].z), (-2, -2, -2));
}
