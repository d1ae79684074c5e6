//! Per-ray queries that the caller answers.
//!
//! Traversal asks, for one ray, where it enters a box and where it first hits an
//! object. The caller computes both from its geometry; for the results to be
//! well defined each query must be a function of its argument.
use vstd::prelude::*;

verus! {

/// What `f` returns for `a`.
pub open spec fn outcome<A, R, F: Fn(A) -> R>(f: F, a: A) -> R {
    choose|r: R| call_ensures(f, (a,), r)
}

/// `f` may be called on any argument and returns one value for each.
pub open spec fn deterministic<A, R, F: Fn(A) -> R>(f: F) -> bool {
    &&& forall|a: A| call_requires(f, (a,))
    &&& forall|a: A, r1: R, r2: R|
        call_ensures(f, (a,), r1) && call_ensures(f, (a,), r2) ==> r1 == r2
}

/// A result that a deterministic query returned is its outcome.
pub proof fn lemma_outcome_is_result<A, R, F: Fn(A) -> R>(f: F, a: A, r: R)
    requires
        deterministic(f),
        call_ensures(f, (a,), r),
    ensures
        outcome(f, a) == r,
{
}

/// The nearest hit found by a query: its ray parameter and the object's index.
#[derive(Clone, Copy, Debug, PartialEq, Eq, Structural)]
pub struct Hit {
    pub t: i64,
    pub object: usize,
}

/// The bound that a later hit must beat: the hit found so far, else `bound`.
pub open spec fn closest(found: Option<Hit>, bound: i64) -> i64 {
    match found {
        Some(h) => h.t,
        None => bound,
    }
}

/// The hit on `object` at `t`, if there is one and it lies before `bound`.
pub open spec fn hit_before(t: Option<i64>, object: usize, bound: i64) -> Option<Hit> {
    match t {
        Some(x) => if x < bound { Some(Hit { t: x, object }) } else { None },
        None => None,
    }
}

/// `t` is a hit that lies before `bound`.
pub open spec fn precedes(t: Option<i64>, bound: i64) -> bool {
    match t {
        Some(x) => x < bound,
        None => false,
    }
}

/// `found` is the nearest hit before `bound` among the objects `objs`: no object is hit
/// before it, or, where it is none, no object is hit before `bound`.
pub open spec fn is_nearest<N: Fn(usize) -> Option<i64>>(
    found: Option<Hit>,
    objs: Seq<usize>,
    near: N,
    bound: i64,
) -> bool {
    match found {
        Some(h) => {
            &&& objs.contains(h.object)
            &&& outcome(near, h.object) == Some(h.t)
            &&& h.t < bound
            &&& forall|i: int| 0 <= i < objs.len() ==> !precedes(outcome(near, #[trigger] objs[i]), h.t)
        },
        None => forall|i: int| 0 <= i < objs.len() ==> !precedes(outcome(near, #[trigger] objs[i]), bound),
    }
}

} // verus!
