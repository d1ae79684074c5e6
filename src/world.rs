//! The nearest hit over a plain list of objects, and its agreement with the hierarchy.
use vstd::prelude::*;
use crate::aabb::Aabb;
use crate::bvh::{BvhNode, all_objects, boxes_admit_hits, lemma_hit_is_nearest};
use crate::probe::{Hit, closest, deterministic, hit_before, is_nearest, lemma_outcome_is_result, outcome, precedes};

verus! {

broadcast use vstd::seq_lib::group_to_multiset_ensures;

/// What a scan of the objects `0 .. count` reports: each object in turn replaces the hit
/// found so far if it is hit strictly before it.
pub open spec fn spec_scan<N: Fn(usize) -> Option<i64>>(near: N, count: nat, t_max: i64) -> Option<Hit>
    decreases count,
{
    if count == 0 {
        None
    } else {
        let found = spec_scan(near, (count - 1) as nat, t_max);
        let o = (count - 1) as usize;
        match hit_before(outcome(near, o), o, closest(found, t_max)) {
            Some(h) => Some(h),
            None => found,
        }
    }
}

/// The nearest hit before `t_max` of one ray with the objects `0 .. count`, trying each
/// object in turn; `near` gives where the ray first hits an object, if it does. Of two
/// objects hit at the same point, the earlier one is kept.
pub fn nearest_hit<N: Fn(usize) -> Option<i64>>(count: usize, t_max: i64, near: &N) -> (r: Option<Hit>)
    requires
        deterministic(*near),
    ensures
        r == spec_scan(*near, count as nat, t_max),
        is_nearest(r, all_objects(count as nat), *near, t_max),
        match r {
            Some(h) => forall|o: usize| o < h.object ==> outcome(*near, o) != Some(h.t),
            None => true,
        },
{
    let mut found: Option<Hit> = None;
    let mut closest_so_far = t_max;
    let mut o: usize = 0;
    while o < count
        invariant
            deterministic(*near),
            o <= count,
            found == spec_scan(*near, o as nat, t_max),
            closest_so_far == closest(found, t_max),
        decreases count - o,
    {
        let t = near(o);
        proof {
            lemma_outcome_is_result(*near, o, t);
        }
        if let Some(x) = t {
            if x < closest_so_far {
                closest_so_far = x;
                found = Some(Hit { t: x, object: o });
            }
        }
        o = o + 1;
    }
    proof {
        lemma_scan_is_nearest(*near, count as nat, t_max);
        lemma_scan_keeps_first(*near, count as nat, t_max);
    }
    found
}

/// The scan finds the nearest hit among all the objects it tries.
pub proof fn lemma_scan_is_nearest<N: Fn(usize) -> Option<i64>>(near: N, count: nat, t_max: i64)
    requires
        count <= usize::MAX + 1,
    ensures
        is_nearest(spec_scan(near, count, t_max), all_objects(count), near, t_max),
    decreases count,
{
    if count > 0 {
        let k = (count - 1) as nat;
        lemma_scan_is_nearest(near, k, t_max);
        let prev = all_objects(k);
        let objs = all_objects(count);
        let found = spec_scan(near, k, t_max);
        let o = (count - 1) as usize;
        assert forall|i: int| 0 <= i < k implies objs[i] == #[trigger] prev[i] by {}
        assert(objs[k as int] == o);
        if let Some(h) = spec_scan(near, count, t_max) {
            assert forall|i: int| 0 <= i < objs.len() implies !precedes(
                outcome(near, #[trigger] objs[i]),
                h.t,
            ) by {
                if i < k {
                    assert(objs[i] == prev[i]);
                }
            }
            if h.object == o {
                assert(objs[k as int] == h.object);
            } else {
                let j = choose|j: int| 0 <= j < prev.len() && prev[j] == h.object;
                assert(objs[j] == h.object);
            }
        } else {
            assert forall|i: int| 0 <= i < objs.len() implies !precedes(
                outcome(near, #[trigger] objs[i]),
                t_max,
            ) by {
                if i < k {
                    assert(objs[i] == prev[i]);
                }
            }
        }
    }
}

/// Of two objects hit at the same point, the scan reports the one with the lower index.
pub proof fn lemma_scan_keeps_first<N: Fn(usize) -> Option<i64>>(near: N, count: nat, t_max: i64)
    requires
        count <= usize::MAX + 1,
    ensures
        match spec_scan(near, count, t_max) {
            Some(h) => h.object < count && forall|o: usize| o < h.object ==> outcome(near, o) != Some(h.t),
            None => true,
        },
    decreases count,
{
    if count > 0 {
        let k = (count - 1) as nat;
        lemma_scan_keeps_first(near, k, t_max);
        lemma_scan_is_nearest(near, k, t_max);
        let prev = all_objects(k);
        let found = spec_scan(near, k, t_max);
        if let Some(h) = spec_scan(near, count, t_max) {
            if h.object == (count - 1) as usize && found != Some(h) {
                assert forall|o: usize| o < h.object implies outcome(near, o) != Some(h.t) by {
                    assert(prev[o as int] == o);
                    assert(!precedes(outcome(near, prev[o as int]), closest(found, t_max)));
                }
            }
        }
    }
}

/// At most one of the objects `0 .. count` is hit at `t`.
pub open spec fn alone_at<N: Fn(usize) -> Option<i64>>(near: N, count: nat, t: i64) -> bool {
    forall|a: usize, b: usize|
        a < count && b < count && #[trigger] outcome(near, a) == Some(t) && #[trigger] outcome(
            near,
            b,
        ) == Some(t) ==> a == b
}

/// Traversing a hierarchy built over every object finds the same nearest hit as scanning
/// the objects one by one: both find a hit or neither does, at the same ray parameter,
/// on an object that is hit there; and on the same object when no other object is hit at
/// that nearest point. This holds whenever the box answers never hide a hit.
pub proof fn lemma_bvh_matches_linear_scan<E: Fn(Aabb) -> Option<i64>, N: Fn(usize) -> Option<i64>>(
    root: BvhNode,
    boxes: Seq<Aabb>,
    entry: E,
    near: N,
    t_max: i64,
)
    requires
        boxes.len() <= usize::MAX,
        root.wf(boxes),
        root.leaves().to_multiset() == all_objects(boxes.len()).to_multiset(),
        boxes_admit_hits(entry, near, boxes),
    ensures
        ({
            let via_tree = root.spec_hit(entry, near, t_max);
            let via_scan = spec_scan(near, boxes.len(), t_max);
            match (via_tree, via_scan) {
                (Some(a), Some(b)) => {
                    &&& a.t == b.t
                    &&& a.object < boxes.len()
                    &&& outcome(near, a.object) == Some(a.t)
                    &&& alone_at(near, boxes.len(), a.t) ==> a == b
                },
                (None, None) => true,
                _ => false,
            }
        }),
{
    let n = boxes.len();
    let objs = all_objects(n);
    let leaves = root.leaves();
    lemma_hit_is_nearest(root, boxes, entry, near, t_max);
    lemma_scan_is_nearest(near, n, t_max);
    let via_tree = root.spec_hit(entry, near, t_max);
    let via_scan = spec_scan(near, n, t_max);
    if let Some(a) = via_tree {
        crate::bvh::lemma_shared_member(leaves, objs, a.object);
        let i = choose|i: int| 0 <= i < objs.len() && objs[i] == a.object;
        assert(objs[i] == a.object);
        if let Some(b) = via_scan {
            crate::bvh::lemma_shared_member(objs, leaves, b.object);
            let j = choose|j: int| 0 <= j < leaves.len() && leaves[j] == b.object;
            assert(!precedes(outcome(near, leaves[j]), a.t));
            assert(!precedes(outcome(near, objs[i]), b.t));
        } else {
            assert(!precedes(outcome(near, objs[i]), t_max));
        }
    } else if let Some(b) = via_scan {
        crate::bvh::lemma_shared_member(objs, leaves, b.object);
        let j = choose|j: int| 0 <= j < leaves.len() && leaves[j] == b.object;
        assert(!precedes(outcome(near, leaves[j]), t_max));
    }
}

} // verus!
