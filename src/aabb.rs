//! Axis-aligned bounding boxes over order keys.
use vstd::prelude::*;

verus! {

/// A closed interval `[start, end]` of order keys.
#[derive(Clone, Copy, Debug, PartialEq, Eq, Structural)]
pub struct Interval {
    pub start: i64,
    pub end: i64,
}

/// A point whose three coordinates are order keys.
#[derive(Clone, Copy, Debug, PartialEq, Eq, Structural)]
pub struct Point {
    pub x: i64,
    pub y: i64,
    pub z: i64,
}

/// An axis-aligned box: one interval per axis.
#[derive(Clone, Copy, Debug, PartialEq, Eq, Structural)]
pub struct Aabb {
    pub x: Interval,
    pub y: Interval,
    pub z: Interval,
}

pub open spec fn min_i(a: i64, b: i64) -> i64 {
    if a <= b { a } else { b }
}

pub open spec fn max_i(a: i64, b: i64) -> i64 {
    if a >= b { a } else { b }
}

impl Interval {
    /// The interval is not empty.
    pub open spec fn wf(self) -> bool {
        self.start <= self.end
    }

    /// `self` covers every key of `other`.
    pub open spec fn encloses(self, other: Interval) -> bool {
        self.start <= other.start && other.end <= self.end
    }

    /// The smallest interval covering both.
    pub open spec fn spec_hull(self, other: Interval) -> Interval {
        Interval { start: min_i(self.start, other.start), end: max_i(self.end, other.end) }
    }
}

fn merge(a: &Interval, b: &Interval) -> (r: Interval)
    ensures
        r == a.spec_hull(*b),
{
    Interval {
        start: if a.start <= b.start { a.start } else { b.start },
        end: if a.end >= b.end { a.end } else { b.end },
    }
}

impl Aabb {
    /// Every axis interval is non-empty.
    pub open spec fn wf(self) -> bool {
        self.x.wf() && self.y.wf() && self.z.wf()
    }

    pub open spec fn spec_axis(self, n: int) -> Interval {
        if n == 0 { self.x } else if n == 1 { self.y } else { self.z }
    }

    /// `self` covers `other` on every axis.
    pub open spec fn encloses(self, other: Aabb) -> bool {
        self.x.encloses(other.x) && self.y.encloses(other.y) && self.z.encloses(other.z)
    }

    pub open spec fn spec_merge(self, other: Aabb) -> Aabb {
        Aabb {
            x: self.x.spec_hull(other.x),
            y: self.y.spec_hull(other.y),
            z: self.z.spec_hull(other.z),
        }
    }

    /// The smallest box covering both boxes.
    pub fn from_aabb(box_a: &Aabb, box_b: &Aabb) -> (r: Aabb)
        ensures
            r == box_a.spec_merge(*box_b),
    {
        Aabb {
            x: merge(&box_a.x, &box_b.x),
            y: merge(&box_a.y, &box_b.y),
            z: merge(&box_a.z, &box_b.z),
        }
    }

    /// The box with `a` and `b` as opposite corners, in either order.
    pub fn from_points(a: &Point, b: &Point) -> (r: Aabb)
        ensures
            r.wf(),
            r.x == (Interval { start: min_i(a.x, b.x), end: max_i(a.x, b.x) }),
            r.y == (Interval { start: min_i(a.y, b.y), end: max_i(a.y, b.y) }),
            r.z == (Interval { start: min_i(a.z, b.z), end: max_i(a.z, b.z) }),
    {
        let lo = |u: i64, v: i64| -> (m: i64)
            ensures
                m == min_i(u, v),
            { if u <= v { u } else { v } };
        let hi = |u: i64, v: i64| -> (m: i64)
            ensures
                m == max_i(u, v),
            { if u >= v { u } else { v } };
        Aabb {
            x: Interval { start: lo(a.x, b.x), end: hi(a.x, b.x) },
            y: Interval { start: lo(a.y, b.y), end: hi(a.y, b.y) },
            z: Interval { start: lo(a.z, b.z), end: hi(a.z, b.z) },
        }
    }

    /// The interval on axis `n` (0 for x, 1 for y, 2 for z).
    pub fn axis(&self, n: usize) -> (r: &Interval)
        requires
            n < 3,
        ensures
            *r == self.spec_axis(n as int),
    {
        if n == 0 {
            &self.x
        } else if n == 1 {
            &self.y
        } else {
            &self.z
        }
    }
}

/// Merging two boxes gives a box that covers both, and the box is the smallest one that
/// does: any box covering both covers the merge, and each face of the merge touches one
/// of the two boxes.
pub proof fn lemma_merge_is_least_enclosing(a: Aabb, b: Aabb, c: Aabb)
    requires
        a.wf(),
        b.wf(),
    ensures
        a.spec_merge(b).wf(),
        a.spec_merge(b).encloses(a),
        a.spec_merge(b).encloses(b),
        c.encloses(a) && c.encloses(b) ==> c.encloses(a.spec_merge(b)),
        forall|n: int|
            0 <= n < 3 ==> {
                let m = #[trigger] a.spec_merge(b).spec_axis(n);
                (m.start == a.spec_axis(n).start || m.start == b.spec_axis(n).start) && (m.end
                    == a.spec_axis(n).end || m.end == b.spec_axis(n).end)
            },
{
}

/// Where a ray enters the three slabs of a box, given the ray-parameter interval of each
/// slab: the latest start, never before `t_min`.
pub open spec fn slab_entry_key(spans: [Interval; 3], t_min: i64) -> i64 {
    max_i(max_i(max_i(t_min, spans[0].start), spans[1].start), spans[2].start)
}

/// Where a ray leaves the box: the earliest end among the three slabs.
pub open spec fn slab_exit_key(spans: [Interval; 3]) -> i64 {
    min_i(min_i(spans[0].end, spans[1].end), spans[2].end)
}

/// The ray meets the box for some parameter strictly inside `window`.
pub open spec fn spec_slab_hit(spans: [Interval; 3], window: Interval) -> bool {
    slab_entry_key(spans, window.start) < min_i(slab_exit_key(spans), window.end)
}

/// The entry parameter of a ray that meets the box somewhere after `t_min`.
pub open spec fn spec_slab_entry(spans: [Interval; 3], t_min: i64) -> Option<i64> {
    if slab_entry_key(spans, t_min) < slab_exit_key(spans) {
        Some(slab_entry_key(spans, t_min))
    } else {
        None
    }
}

/// The slab test: narrows `window` by the parameter interval of each axis in turn and
/// reports a miss as soon as the window is empty.
pub fn slab_hit(spans: &[Interval; 3], window: Interval) -> (r: bool)
    ensures
        r == spec_slab_hit(*spans, window),
{
    let mut lo = window.start;
    let mut hi = window.end;
    let mut axis: usize = 0;
    while axis < 3
        invariant
            axis <= 3,
            lo == (if axis == 0 { window.start } else if axis == 1 { max_i(window.start, spans[0].start) }
                else if axis == 2 { max_i(max_i(window.start, spans[0].start), spans[1].start) }
                else { slab_entry_key(*spans, window.start) }),
            hi == (if axis == 0 { window.end } else if axis == 1 { min_i(window.end, spans[0].end) }
                else if axis == 2 { min_i(min_i(window.end, spans[0].end), spans[1].end) }
                else { min_i(min_i(min_i(window.end, spans[0].end), spans[1].end), spans[2].end) }),
            axis > 0 ==> lo < hi,
        decreases 3 - axis,
    {
        if spans[axis].start > lo {
            lo = spans[axis].start;
        }
        if spans[axis].end < hi {
            hi = spans[axis].end;
        }
        if hi <= lo {
            return false;
        }
        axis = axis + 1;
    }
    true
}

/// The entry parameter of the ray into the box, if it meets the box after `t_min`.
pub fn slab_entry(spans: &[Interval; 3], t_min: i64) -> (r: Option<i64>)
    ensures
        r == spec_slab_entry(*spans, t_min),
{
    let mut lo = t_min;
    let mut hi = spans[0].end;
    let mut axis: usize = 0;
    while axis < 3
        invariant
            axis <= 3,
            lo == (if axis == 0 { t_min } else if axis == 1 { max_i(t_min, spans[0].start) }
                else if axis == 2 { max_i(max_i(t_min, spans[0].start), spans[1].start) }
                else { slab_entry_key(*spans, t_min) }),
            hi == (if axis <= 1 { spans[0].end } else if axis == 2 { min_i(spans[0].end, spans[1].end) }
                else { slab_exit_key(*spans) }),
        decreases 3 - axis,
    {
        if spans[axis].start > lo {
            lo = spans[axis].start;
        }
        if spans[axis].end < hi {
            hi = spans[axis].end;
        }
        axis = axis + 1;
    }
    if lo < hi {
        Some(lo)
    } else {
        None
    }
}

/// A box is hit over `[t_min, t_max]` exactly when the ray enters it after `t_min` and
/// before `t_max`: narrowing `t_max` can only turn a hit into a miss at the entry point.
pub proof fn lemma_slab_hit_by_entry(spans: [Interval; 3], t_min: i64, t_max: i64)
    ensures
        spec_slab_hit(spans, Interval { start: t_min, end: t_max }) == match spec_slab_entry(
            spans,
            t_min,
        ) {
            Some(e) => e < t_max,
            None => false,
        },
{
}

} // verus!
