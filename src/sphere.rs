//! The choice among the two intersection parameters of a ray and a sphere.
use vstd::prelude::*;

verus! {

/// The hit a sphere reports for the roots `near <= far` of its quadratic: the nearer
/// root if it lies strictly inside `(t_min, t_max)`, else the farther one if it does,
/// else none.
pub open spec fn spec_select_root(near: i64, far: i64, t_min: i64, t_max: i64) -> Option<i64> {
    if t_min < near && near < t_max {
        Some(near)
    } else if t_min < far && far < t_max {
        Some(far)
    } else {
        None
    }
}

/// Keeps a hit only if it lies strictly before `bound`.
pub open spec fn before(hit: Option<i64>, bound: i64) -> Option<i64> {
    match hit {
        Some(t) => if t < bound { Some(t) } else { None },
        None => None,
    }
}

/// Picks the intersection parameter of a ray and a sphere from the two roots of its
/// quadratic, nearer root first.
pub fn select_root(near: i64, far: i64, t_min: i64, t_max: i64) -> (r: Option<i64>)
    ensures
        r == spec_select_root(near, far, t_min, t_max),
{
    if near <= t_min || t_max <= near {
        if far <= t_min || t_max <= far {
            None
        } else {
            Some(far)
        }
    } else {
        Some(near)
    }
}

/// When both roots lie strictly inside the range, the nearer one is the hit.
pub proof fn lemma_nearer_root_wins(near: i64, far: i64, t_min: i64, t_max: i64)
    requires
        near <= far,
        t_min < near < t_max,
        t_min < far < t_max,
    ensures
        spec_select_root(near, far, t_min, t_max) == Some(near),
{
}

/// Lowering the upper end of the range only drops a hit that falls beyond the new end:
/// the hit over `[t_min, bound)` is the hit over `[t_min, t_max)` if it lies before
/// `bound`. So a sphere is described, for one ray, by its hit over the whole range.
pub proof fn lemma_select_root_narrowing(near: i64, far: i64, t_min: i64, bound: i64, t_max: i64)
    requires
        near <= far,
        bound <= t_max,
    ensures
        spec_select_root(near, far, t_min, bound) == before(
            spec_select_root(near, far, t_min, t_max),
            bound,
        ),
{
}

} // verus!
