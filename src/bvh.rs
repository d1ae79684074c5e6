//! Bounding volume hierarchy over object boxes.
use vstd::prelude::*;
use crate::aabb::Aabb;
use crate::probe::{Hit, closest, deterministic, hit_before, is_nearest, lemma_outcome_is_result, outcome, precedes};

verus! {

broadcast use vstd::seq_lib::group_to_multiset_ensures;

/// A node of the hierarchy. A leaf holds one object; a branch splits its objects in two
/// along `axis`. Each node owns its subtree, and its box covers everything below it.
#[derive(Debug)]
pub enum BvhNode {
    Leaf { object: usize, bounding_box: Aabb },
    Branch { axis: usize, left: Box<BvhNode>, right: Box<BvhNode>, bounding_box: Aabb },
}

/// The objects `0, 1, ..., n - 1`.
pub open spec fn all_objects(n: nat) -> Seq<usize> {
    Seq::new(n, |i: int| i as usize)
}

/// Where object `o`'s box starts on `axis`.
pub open spec fn start_key(boxes: Seq<Aabb>, o: usize, axis: usize) -> i64 {
    boxes[o as int].spec_axis(axis as int).start
}

/// The objects of `s` are in order of where their boxes start on `axis`.
pub open spec fn sorted_by_start(s: Seq<usize>, boxes: Seq<Aabb>, axis: usize) -> bool {
    forall|i: int, j: int|
        0 <= i < j < s.len() ==> start_key(boxes, s[i], axis) <= start_key(boxes, s[j], axis)
}

impl BvhNode {
    pub open spec fn spec_bounding_box(self) -> Aabb {
        match self {
            BvhNode::Leaf { bounding_box, .. } => bounding_box,
            BvhNode::Branch { bounding_box, .. } => bounding_box,
        }
    }

    /// The objects of the leaves, from left to right.
    pub open spec fn leaves(self) -> Seq<usize>
        decreases self,
    {
        match self {
            BvhNode::Leaf { object, .. } => seq![object],
            BvhNode::Branch { left, right, .. } => left.leaves() + right.leaves(),
        }
    }

    /// A leaf's box is its object's box; a branch's box is the merge of its children's
    /// boxes, and every object on its left starts no later on its axis than every object
    /// on its right.
    pub open spec fn wf(self, boxes: Seq<Aabb>) -> bool
        decreases self,
    {
        match self {
            BvhNode::Leaf { object, bounding_box } => object < boxes.len() && bounding_box
                == boxes[object as int],
            BvhNode::Branch { axis, left, right, bounding_box } => {
                &&& axis < 3
                &&& left.wf(boxes)
                &&& right.wf(boxes)
                &&& bounding_box == left.spec_bounding_box().spec_merge(right.spec_bounding_box())
                &&& forall|i: int, j: int|
                    0 <= i < left.leaves().len() && 0 <= j < right.leaves().len() ==> start_key(
                        boxes,
                        #[trigger] left.leaves()[i],
                        axis,
                    ) <= start_key(boxes, #[trigger] right.leaves()[j], axis)
            },
        }
    }

    /// The node covers positions `offset ..` of the build's working order. A branch keeps
    /// the first half of its objects (rounded down) on the left, and splits along the axis
    /// drawn for the last position of that half.
    pub open spec fn split_as_drawn(self, draws: Seq<usize>, offset: int) -> bool
        decreases self,
    {
        match self {
            BvhNode::Leaf { .. } => true,
            BvhNode::Branch { axis, left, right, .. } => {
                &&& left.leaves().len() == self.leaves().len() / 2
                &&& axis == draws[offset + left.leaves().len() - 1]
                &&& left.split_as_drawn(draws, offset)
                &&& right.split_as_drawn(draws, offset + left.leaves().len())
            },
        }
    }

    /// The node's box.
    pub fn bounding_box(&self) -> (r: &Aabb)
        ensures
            *r == self.spec_bounding_box(),
    {
        match self {
            BvhNode::Leaf { bounding_box, .. } => bounding_box,
            BvhNode::Branch { bounding_box, .. } => bounding_box,
        }
    }
}

/// A stable insertion sort of `items` by where their boxes start on `axis`.
fn sort_by_start(items: &Vec<usize>, boxes: &Vec<Aabb>, axis: usize) -> (r: Vec<usize>)
    requires
        axis < 3,
        forall|i: int| 0 <= i < items.len() ==> items[i] < boxes.len(),
    ensures
        r@.to_multiset() == items@.to_multiset(),
        r.len() == items.len(),
        forall|i: int| 0 <= i < r.len() ==> r[i] < boxes.len(),
        sorted_by_start(r@, boxes@, axis),
{
    let mut r: Vec<usize> = Vec::new();
    let mut i: usize = 0;
    while i < items.len()
        invariant
            axis < 3,
            forall|k: int| 0 <= k < items.len() ==> items[k] < boxes.len(),
            i <= items.len(),
            r.len() == i,
            r@.to_multiset() == items@.subrange(0, i as int).to_multiset(),
            forall|k: int| 0 <= k < r.len() ==> r[k] < boxes.len(),
            sorted_by_start(r@, boxes@, axis),
        decreases items.len() - i,
    {
        let x = items[i];
        let kx = boxes[x].axis(axis).start;
        let mut pos: usize = 0;
        while pos < r.len() && boxes[r[pos]].axis(axis).start <= kx
            invariant
                axis < 3,
                pos <= r.len(),
                forall|k: int| 0 <= k < r.len() ==> r[k] < boxes.len(),
                forall|k: int| 0 <= k < pos ==> start_key(boxes@, #[trigger] r[k], axis) <= kx,
            decreases r.len() - pos,
        {
            pos = pos + 1;
        }
        let ghost before = r@;
        r.insert(pos, x);
        proof {
            assert(items@.subrange(0, i + 1) =~= items@.subrange(0, i as int).push(x));
            assert forall|a: int, b: int| 0 <= a < b < r.len() implies start_key(
                boxes@,
                r[a],
                axis,
            ) <= start_key(boxes@, r[b], axis) by {
                if b < pos {
                } else if b == pos {
                } else if a < pos {
                } else if a == pos {
                    assert(r[b] == before[b - 1]);
                    if pos < before.len() {
                        assert(start_key(boxes@, before[pos as int], axis) > kx);
                        if b - 1 > pos {
                            assert(start_key(boxes@, before[pos as int], axis) <= start_key(
                                boxes@,
                                before[b - 1],
                                axis,
                            ));
                        }
                    }
                } else {
                    assert(r[a] == before[a - 1]);
                    assert(r[b] == before[b - 1]);
                }
            }
        }
        i = i + 1;
    }
    proof {
        assert(items@.subrange(0, items.len() as int) =~= items@);
    }
    r
}

/// Two sequences with the same multiset hold the same elements.
pub proof fn lemma_shared_member(s: Seq<usize>, t: Seq<usize>, x: usize)
    requires
        s.to_multiset() == t.to_multiset(),
        s.contains(x),
    ensures
        t.contains(x),
{
    assert(s.to_multiset().count(x) > 0);
    assert(t.to_multiset().count(x) > 0);
}

fn build_from(boxes: &Vec<Aabb>, axis_draws: &Vec<usize>, items: Vec<usize>, offset: usize) -> (r:
    BvhNode)
    requires
        items.len() >= 1,
        offset + items.len() <= axis_draws.len() + 1,
        forall|i: int| 0 <= i < items.len() ==> items[i] < boxes.len(),
        forall|i: int| 0 <= i < axis_draws.len() ==> axis_draws[i] < 3,
    ensures
        r.wf(boxes@),
        r.leaves().to_multiset() == items@.to_multiset(),
        r.split_as_drawn(axis_draws@, offset as int),
    decreases items.len(),
{
    let n = items.len();
    if n == 1 {
        let object = items[0];
        proof {
            assert(items@ =~= seq![object]);
        }
        return BvhNode::Leaf { object, bounding_box: boxes[object] };
    }
    let half = n / 2;
    let axis = axis_draws[offset + half - 1];
    let sorted = sort_by_start(&items, boxes, axis);
    let mut lower: Vec<usize> = Vec::new();
    let mut upper: Vec<usize> = Vec::new();
    let mut k: usize = 0;
    while k < half
        invariant
            half <= n,
            n == sorted.len(),
            k <= half,
            lower@ == sorted@.subrange(0, k as int),
        decreases half - k,
    {
        lower.push(sorted[k]);
        k = k + 1;
    }
    while k < n
        invariant
            half <= k <= n,
            n == sorted.len(),
            upper@ == sorted@.subrange(half as int, k as int),
        decreases n - k,
    {
        upper.push(sorted[k]);
        k = k + 1;
    }
    proof {
        assert(sorted@ =~= lower@ + upper@);
        vstd::seq_lib::lemma_multiset_commutative(lower@, upper@);
    }
    let left = build_from(boxes, axis_draws, lower, offset);
    let right = build_from(boxes, axis_draws, upper, offset + half);
    let bounding_box = Aabb::from_aabb(left.bounding_box(), right.bounding_box());
    let ghost ll = left.leaves();
    let ghost rl = right.leaves();
    proof {
        vstd::seq_lib::lemma_multiset_commutative(ll, rl);
        assert(ll.len() == half) by {
            assert(ll.to_multiset().len() == lower@.to_multiset().len());
        }
        assert(rl.len() == n - half) by {
            assert(rl.to_multiset().len() == upper@.to_multiset().len());
        }
        assert forall|i: int, j: int| 0 <= i < ll.len() && 0 <= j < rl.len() implies start_key(
            boxes@,
            #[trigger] ll[i],
            axis,
        ) <= start_key(boxes@, #[trigger] rl[j], axis) by {
            assert(ll.contains(ll[i]));
            assert(rl.contains(rl[j]));
            lemma_shared_member(ll, lower@, ll[i]);
            lemma_shared_member(rl, upper@, rl[j]);
            let a = choose|a: int| 0 <= a < lower@.len() && lower@[a] == ll[i];
            let b = choose|b: int| 0 <= b < upper@.len() && upper@[b] == rl[j];
            assert(sorted@[a] == ll[i]);
            assert(sorted@[half + b] == rl[j]);
        }
    }
    BvhNode::Branch { axis, left: Box::new(left), right: Box::new(right), bounding_box }
}

impl BvhNode {
    /// Builds the hierarchy over the objects whose boxes are `boxes`. The objects are
    /// sorted by where their boxes start along an axis, split at the middle, and each half
    /// is built the same way. A node covering positions `p .. q` of the working order
    /// (with `q - p >= 2`) splits along axis `axis_draws[p + (q - p) / 2 - 1]`, so each
    /// entry of `axis_draws` is used by at most one node.
    pub fn build(boxes: &Vec<Aabb>, axis_draws: &Vec<usize>) -> (r: BvhNode)
        requires
            boxes.len() >= 1,
            axis_draws.len() + 1 >= boxes.len(),
            forall|i: int| 0 <= i < axis_draws.len() ==> axis_draws[i] < 3,
        ensures
            r.wf(boxes@),
            r.leaves().to_multiset() == all_objects(boxes.len() as nat).to_multiset(),
            r.split_as_drawn(axis_draws@, 0),
    {
        let mut items: Vec<usize> = Vec::new();
        let mut i: usize = 0;
        while i < boxes.len()
            invariant
                i <= boxes.len(),
                items@ == all_objects(i as nat),
            decreases boxes.len() - i,
        {
            items.push(i);
            i = i + 1;
            proof {
                assert(items@ =~= all_objects(i as nat));
            }
        }
        build_from(boxes, axis_draws, items, 0)
    }
}

/// The ray enters `b` before `bound`.
pub open spec fn enters_before<E: Fn(Aabb) -> Option<i64>>(entry: E, b: Aabb, bound: i64) -> bool {
    match outcome(entry, b) {
        Some(e) => e < bound,
        None => false,
    }
}

/// A box answer `e` admits an object answer `t`: where the object is hit, the ray has
/// entered the box at or before that point.
pub open spec fn admits(e: Option<i64>, t: Option<i64>) -> bool {
    match t {
        Some(x) => match e {
            Some(y) => y <= x,
            None => false,
        },
        None => true,
    }
}

/// The box answers never hide a hit: a ray that hits an object enters, at or before that
/// hit, every box that covers the object's box.
pub open spec fn boxes_admit_hits<E: Fn(Aabb) -> Option<i64>, N: Fn(usize) -> Option<i64>>(
    entry: E,
    near: N,
    boxes: Seq<Aabb>,
) -> bool {
    forall|o: usize, b: Aabb|
        o < boxes.len() && #[trigger] b.encloses(boxes[o as int]) ==> admits(
            outcome(entry, b),
            outcome(near, o),
        )
}

impl BvhNode {
    /// The hit that traversal reports below this node for hits before `bound`. A node
    /// whose box the ray does not enter before `bound` is skipped. A branch searches its
    /// left child, then its right child for hits before the left one's, and keeps the
    /// right one's if there is one.
    pub open spec fn spec_hit<E: Fn(Aabb) -> Option<i64>, N: Fn(usize) -> Option<i64>>(
        self,
        entry: E,
        near: N,
        bound: i64,
    ) -> Option<Hit>
        decreases self,
    {
        if !enters_before(entry, self.spec_bounding_box(), bound) {
            None
        } else {
            match self {
                BvhNode::Leaf { object, .. } => hit_before(outcome(near, object), object, bound),
                BvhNode::Branch { left, right, .. } => {
                    let l = left.spec_hit(entry, near, bound);
                    let r = right.spec_hit(entry, near, closest(l, bound));
                    match r {
                        Some(_) => r,
                        None => l,
                    }
                },
            }
        }
    }

    /// The nearest hit before `t_max` of one ray with the objects below this node.
    /// `entry` gives where the ray enters a box and `near` where it first hits an object,
    /// if it does.
    pub fn hit<E: Fn(Aabb) -> Option<i64>, N: Fn(usize) -> Option<i64>>(
        &self,
        t_max: i64,
        entry: &E,
        near: &N,
    ) -> (r: Option<Hit>)
        requires
            deterministic(*entry),
            deterministic(*near),
        ensures
            r == self.spec_hit(*entry, *near, t_max),
            forall|boxes: Seq<Aabb>|
                #![trigger self.wf(boxes)]
                #![trigger boxes_admit_hits(*entry, *near, boxes)]
                self.wf(boxes) && boxes_admit_hits(*entry, *near, boxes) ==> is_nearest(
                    r,
                    self.leaves(),
                    *near,
                    t_max,
                ),
        decreases self,
    {
        proof {
            assert forall|boxes: Seq<Aabb>|
                self.wf(boxes) && boxes_admit_hits(*entry, *near, boxes) implies is_nearest(
                    self.spec_hit(*entry, *near, t_max),
                    self.leaves(),
                    *near,
                    t_max,
                ) by {
                lemma_hit_is_nearest(*self, boxes, *entry, *near, t_max);
            }
        }
        let e = entry(*self.bounding_box());
        proof {
            lemma_outcome_is_result(*entry, self.spec_bounding_box(), e);
        }
        let enters = match e {
            Some(k) => k < t_max,
            None => false,
        };
        if !enters {
            return None;
        }
        match self {
            BvhNode::Leaf { object, .. } => {
                let t = near(*object);
                proof {
                    lemma_outcome_is_result(*near, *object, t);
                }
                match t {
                    Some(x) => if x < t_max { Some(Hit { t: x, object: *object }) } else { None },
                    None => None,
                }
            },
            BvhNode::Branch { left, right, .. } => {
                let l = left.hit(t_max, entry, near);
                let bound = match l {
                    Some(h) => h.t,
                    None => t_max,
                };
                let r = right.hit(bound, entry, near);
                match r {
                    Some(_) => r,
                    None => l,
                }
            },
        }
    }
}

/// A node's box covers the box of every object below it.
pub proof fn lemma_box_covers_leaves(node: BvhNode, boxes: Seq<Aabb>)
    requires
        node.wf(boxes),
    ensures
        forall|i: int| 0 <= i < node.leaves().len() ==> #[trigger] node.leaves()[i] < boxes.len(),
        forall|i: int|
            0 <= i < node.leaves().len() ==> node.spec_bounding_box().encloses(
                #[trigger] boxes[node.leaves()[i] as int],
            ),
    decreases node,
{
    match node {
        BvhNode::Leaf { .. } => {},
        BvhNode::Branch { left, right, .. } => {
            lemma_box_covers_leaves(*left, boxes);
            lemma_box_covers_leaves(*right, boxes);
            let ll = left.leaves();
            let rl = right.leaves();
            assert forall|i: int| 0 <= i < node.leaves().len() implies node.spec_bounding_box().encloses(
                #[trigger] boxes[node.leaves()[i] as int],
            ) by {
                if i < ll.len() {
                    assert(node.leaves()[i] == ll[i]);
                    assert(ll[i] < boxes.len());
                    assert(left.spec_bounding_box().encloses(boxes[ll[i] as int]));
                } else {
                    assert(node.leaves()[i] == rl[i - ll.len()]);
                    assert(rl[i - ll.len()] < boxes.len());
                    assert(right.spec_bounding_box().encloses(boxes[rl[i - ll.len()] as int]));
                }
            }
        },
    }
}

/// Traversal finds the nearest hit among the objects below the node, provided the box
/// answers never hide a hit.
pub proof fn lemma_hit_is_nearest<E: Fn(Aabb) -> Option<i64>, N: Fn(usize) -> Option<i64>>(
    node: BvhNode,
    boxes: Seq<Aabb>,
    entry: E,
    near: N,
    bound: i64,
)
    requires
        node.wf(boxes),
        boxes_admit_hits(entry, near, boxes),
    ensures
        is_nearest(node.spec_hit(entry, near, bound), node.leaves(), near, bound),
    decreases node,
{
    let objs = node.leaves();
    lemma_box_covers_leaves(node, boxes);
    if !enters_before(entry, node.spec_bounding_box(), bound) {
        assert forall|i: int| 0 <= i < objs.len() implies !precedes(
            outcome(near, #[trigger] objs[i]),
            bound,
        ) by {
            assert(objs[i] < boxes.len());
            assert(node.spec_bounding_box().encloses(boxes[objs[i] as int]));
            assert(admits(outcome(entry, node.spec_bounding_box()), outcome(near, objs[i])));
        }
        return;
    }
    match node {
        BvhNode::Leaf { object, .. } => {
            assert(objs[0] == object);
        },
        BvhNode::Branch { left, right, .. } => {
            let ll = left.leaves();
            let rl = right.leaves();
            let l = left.spec_hit(entry, near, bound);
            let cb = closest(l, bound);
            let r = right.spec_hit(entry, near, cb);
            lemma_hit_is_nearest(*left, boxes, entry, near, bound);
            lemma_hit_is_nearest(*right, boxes, entry, near, cb);
            assert(objs == ll + rl);
            let found = node.spec_hit(entry, near, bound);
            if let Some(h) = found {
                assert forall|i: int| 0 <= i < objs.len() implies !precedes(
                    outcome(near, #[trigger] objs[i]),
                    h.t,
                ) by {
                    if i < ll.len() {
                        assert(objs[i] == ll[i]);
                    } else {
                        assert(objs[i] == rl[i - ll.len()]);
                    }
                }
                if r is Some {
                    let j = choose|j: int| 0 <= j < rl.len() && rl[j] == h.object;
                    assert(objs[ll.len() + j] == h.object);
                } else {
                    let j = choose|j: int| 0 <= j < ll.len() && ll[j] == h.object;
                    assert(objs[j] == h.object);
                }
            } else {
                assert forall|i: int| 0 <= i < objs.len() implies !precedes(
                    outcome(near, #[trigger] objs[i]),
                    bound,
                ) by {
                    if i < ll.len() {
                        assert(objs[i] == ll[i]);
                    } else {
                        assert(objs[i] == rl[i - ll.len()]);
                    }
                }
            }
        },
    }
}

} // verus!
