use raytracer::aabb::{slab_entry, slab_hit, Aabb, Interval, Point};

fn iv(start: i64, end: i64) -> Interval {
    Interval { start, end }
}

fn bx(x: (i64, i64), y: (i64, i64), z: (i64, i64)) -> Aabb {
    Aabb { x: iv(x.0, x.1), y: iv(y.0, y.1), z: iv(z.0, z.1) }
}

fn encloses(outer: &Aabb, inner: &Aabb) -> bool {
    [0usize, 1, 2].iter().all(|&n| {
        outer.axis(n).start <= inner.axis(n).start && inner.axis(n).end <= outer.axis(n).end
    })
}

#[test]
fn from_points_orders_corners() {
    let b = Aabb::from_points(&Point { x: 3, y: -1, z: 7 }, &Point { x: -2, y: 4, z: 7 });
    assert_eq!(b, bx((-2, 3), (-1, 4), (7, 7)));
    let c = Aabb::from_points(&Point { x: -2, y: 4, z: 7 }, &Point { x: 3, y: -1, z: 7 });
    assert_eq!(b, c);
}

#[test]
fn from_aabb_takes_the_hull() {
    let a = bx((0, 2), (5, 6), (-3, -1));
    let b = bx((1, 4), (0, 1), (-2, 8));
    assert_eq!(Aabb::from_aabb(&a, &b), bx((0, 4), (0, 6), (-3, 8)));
    assert_eq!(Aabb::from_aabb(&b, &a), bx((0, 4), (0, 6), (-3, 8)));
}

#[test]
fn merge_encloses_both_and_is_tightest() {
    let a = bx((0, 2), (5, 6), (-3, -1));
    let b = bx((1, 4), (0, 1), (-2, 8));
    let m = Aabb::from_aabb(&a, &b);
    assert!(encloses(&m, &a));
    assert!(encloses(&m, &b));
    // shrinking any face of the merge uncovers a face of one of the boxes
    for n in 0..3usize {
        assert!(m.axis(n).start == a.axis(n).start || m.axis(n).start == b.axis(n).start);
        assert!(m.axis(n).end == a.axis(n).end || m.axis(n).end == b.axis(n).end);
    }
    let shrunk = bx((1, 4), (0, 6), (-3, 8));
    assert!(!encloses(&shrunk, &a));
}

#[test]
fn merge_with_itself_is_unchanged() {
    let a = bx((0, 2), (5, 6), (-3, -1));
    assert_eq!(Aabb::from_aabb(&a, &a), a);
}

#[test]
fn axis_selects_interval() {
    let a = bx((0, 2), (5, 6), (-3, -1));
    assert_eq!(*a.axis(0), iv(0, 2));
    assert_eq!(*a.axis(1), iv(5, 6));
    assert_eq!(*a.axis(2), iv(-3, -1));
}

#[test]
fn slab_hit_overlapping_slabs() {
    let spans = [iv(1, 9), iv(2, 8), iv(3, 7)];
    assert!(slab_hit(&spans, iv(0, 100)));
    assert!(slab_hit(&spans, iv(6, 100)));
    assert!(!slab_hit(&spans, iv(0, 3)));
    assert!(!slab_hit(&spans, iv(7, 100)));
}

#[test]
fn slab_hit_disjoint_slabs_miss() {
    let spans = [iv(1, 3), iv(4, 8), iv(0, 10)];
    assert!(!slab_hit(&spans, iv(0, 100)));
    assert_eq!(slab_entry(&spans, 0), None);
}

#[test]
fn slab_entry_is_latest_start() {
    let spans = [iv(1, 9), iv(2, 8), iv(3, 7)];
    assert_eq!(slab_entry(&spans, 0), Some(3));
    assert_eq!(slab_entry(&spans, 5), Some(5));
    assert_eq!(slab_entry(&spans, 7), None);
}

#[test]
fn slab_hit_agrees_with_entry() {
    let spans = [iv(-4, 9), iv(2, 8), iv(-1, 5)];
    for t_min in -6..12 {
        for t_max in -6..12 {
            let by_entry = match slab_entry(&spans, t_min) {
                Some(e) => e < t_max,
                None => false,
            };
            assert_eq!(slab_hit(&spans, iv(t_min, t_max)), by_entry);
        }
    }
}
