use raytracer::aabb::{slab_entry, Aabb, Interval};
use raytracer::bvh::BvhNode;
use raytracer::probe::Hit;
use raytracer::world::nearest_hit;

fn iv(start: i64, end: i64) -> Interval {
    Interval { start, end }
}

fn bx(x: (i64, i64), y: (i64, i64), z: (i64, i64)) -> Aabb {
    Aabb { x: iv(x.0, x.1), y: iv(y.0, y.1), z: iv(z.0, z.1) }
}

fn leaves(node: &BvhNode, out: &mut Vec<usize>) {
    match node {
        BvhNode::Leaf { object, .. } => out.push(*object),
        BvhNode::Branch { left, right, .. } => {
            leaves(left, out);
            leaves(right, out);
        }
    }
}

fn check_boxes(node: &BvhNode, boxes: &[Aabb]) {
    match node {
        BvhNode::Leaf { object, bounding_box } => assert_eq!(*bounding_box, boxes[*object]),
        BvhNode::Branch { left, right, bounding_box, axis } => {
            assert_eq!(*bounding_box, Aabb::from_aabb(left.bounding_box(), right.bounding_box()));
            let mut l = Vec::new();
            let mut r = Vec::new();
            leaves(left, &mut l);
            leaves(right, &mut r);
            for a in &l {
                for b in &r {
                    assert!(boxes[*a].axis(*axis).start <= boxes[*b].axis(*axis).start);
                }
            }
            check_boxes(left, boxes);
            check_boxes(right, boxes);
        }
    }
}

/// A small linear congruential generator, so that scenes are reproducible.
struct Lcg(u64);

impl Lcg {
    fn next(&mut self, modulus: u64) -> i64 {
        self.0 = self.0.wrapping_mul(6364136223846793005).wrapping_add(1442695040888963407);
        ((self.0 >> 33) % modulus) as i64
    }
}

fn scene(rng: &mut Lcg, count: usize) -> Vec<Aabb> {
    (0..count)
        .map(|_| {
            let x = rng.next(100);
            let y = rng.next(20) - 10;
            let z = rng.next(20) - 10;
            let s = 1 + rng.next(6);
            bx((x, x + s), (y, y + s), (z, z + s))
        })
        .collect()
}

const T_MIN: i64 = 1;

/// A ray along +x through (0, y, z): it enters a box where its x slab starts, if it
/// passes through the box's y and z extent.
fn entry_of(b: &Aabb, y: i64, z: i64) -> Option<i64> {
    let cross = |i: &Interval, c: i64| if i.start <= c && c <= i.end { iv(i64::MIN, i64::MAX) } else { iv(1, 0) };
    slab_entry(&[b.x, cross(&b.y, y), cross(&b.z, z)], T_MIN)
}

#[test]
fn build_single_object_is_leaf() {
    let boxes = vec![bx((0, 1), (2, 3), (4, 5))];
    let tree = BvhNode::build(&boxes, &vec![]);
    match tree {
        BvhNode::Leaf { object, bounding_box } => {
            assert_eq!(object, 0);
            assert_eq!(bounding_box, boxes[0]);
        }
        BvhNode::Branch { .. } => panic!("one object makes a leaf"),
    }
}

#[test]
fn build_splits_at_the_middle_along_drawn_axis() {
    let boxes = vec![
        bx((9, 10), (0, 1), (4, 5)),
        bx((1, 2), (8, 9), (0, 1)),
        bx((5, 6), (3, 4), (2, 3)),
        bx((3, 4), (1, 2), (9, 9)),
        bx((7, 8), (6, 7), (1, 2)),
    ];
    let tree = BvhNode::build(&boxes, &vec![2, 0, 1, 1]);
    match &tree {
        BvhNode::Branch { axis, left, right, bounding_box } => {
            assert_eq!(*axis, 0);
            assert_eq!(*bounding_box, bx((1, 10), (0, 9), (0, 9)));
            let mut l = Vec::new();
            let mut r = Vec::new();
            leaves(left, &mut l);
            leaves(right, &mut r);
            l.sort();
            r.sort();
            assert_eq!(l, vec![1, 3]);
            assert_eq!(r, vec![0, 2, 4]);
            match &**left {
                BvhNode::Branch { axis, .. } => assert_eq!(*axis, 2),
                BvhNode::Leaf { .. } => panic!("two objects make a branch"),
            }
            match &**right {
                BvhNode::Branch { axis, .. } => assert_eq!(*axis, 1),
                BvhNode::Leaf { .. } => panic!("three objects make a branch"),
            }
        }
        BvhNode::Leaf { .. } => panic!("five objects make a branch"),
    }
    check_boxes(&tree, &boxes);
}

#[test]
fn build_holds_each_object_once() {
    let mut rng = Lcg(7);
    for count in 1..40usize {
        let boxes = scene(&mut rng, count);
        let draws: Vec<usize> = (0..count).map(|_| rng.next(3) as usize).collect();
        let tree = BvhNode::build(&boxes, &draws);
        let mut l = Vec::new();
        leaves(&tree, &mut l);
        l.sort();
        assert_eq!(l, (0..count).collect::<Vec<_>>());
        check_boxes(&tree, &boxes);
    }
}

#[test]
fn traversal_matches_linear_scan() {
    let mut rng = Lcg(42);
    for count in 1..30usize {
        let boxes = scene(&mut rng, count);
        let draws: Vec<usize> = (0..count).map(|_| rng.next(3) as usize).collect();
        let tree = BvhNode::build(&boxes, &draws);
        for y in -11..12 {
            for z in -11..12 {
                let entry = |b: Aabb| entry_of(&b, y, z);
                let near = |o: usize| entry_of(&boxes[o], y, z);
                let via_tree = tree.hit(i64::MAX, &entry, &near);
                let via_scan = nearest_hit(count, i64::MAX, &near);
                assert_eq!(via_tree.map(|h| h.t), via_scan.map(|h| h.t));
                if let Some(h) = via_tree {
                    assert_eq!(near(h.object), Some(h.t));
                }
            }
        }
    }
}

#[test]
fn traversal_respects_t_max() {
    let boxes = vec![bx((5, 6), (0, 1), (0, 1)), bx((3, 4), (0, 1), (0, 1)), bx((8, 9), (0, 1), (0, 1))];
    let tree = BvhNode::build(&boxes, &vec![0, 0]);
    let entry = |b: Aabb| entry_of(&b, 0, 0);
    let near = |o: usize| entry_of(&boxes[o], 0, 0);
    assert_eq!(tree.hit(100, &entry, &near), Some(Hit { t: 3, object: 1 }));
    assert_eq!(tree.hit(3, &entry, &near), None);
    assert_eq!(tree.hit(4, &entry, &near), Some(Hit { t: 3, object: 1 }));
}

#[test]
fn traversal_misses_everything() {
    let boxes = vec![bx((5, 6), (0, 1), (0, 1)), bx((3, 4), (0, 1), (0, 1))];
    let tree = BvhNode::build(&boxes, &vec![1]);
    let entry = |b: Aabb| entry_of(&b, 50, 0);
    let near = |o: usize| entry_of(&boxes[o], 50, 0);
    assert_eq!(tree.hit(i64::MAX, &entry, &near), None);
}

#[test]
fn nearest_hit_keeps_earlier_of_equal_hits() {
    let near = |o: usize| [Some(7), None, Some(4), Some(4), Some(9)][o];
    assert_eq!(nearest_hit(5, 100, &near), Some(Hit { t: 4, object: 2 }));
    assert_eq!(nearest_hit(2, 100, &near), Some(Hit { t: 7, object: 0 }));
    assert_eq!(nearest_hit(5, 4, &near), None);
    assert_eq!(nearest_hit(0, 100, &near), None);
}
