//! Per-lane maximum and argmax along an axis.
//!
//! Each lane is reduced independently: `maxf` keeps the maximal element
//! under the order of [`crate::order`], `argmaxf` keeps its position within
//! the lane.  Ties are broken towards the *last* occurrence, so two
//! elements with one sort key (two `NaN`s, or the two zeroes) select the
//! later one.  The keep-dims variants return the same values under a shape
//! whose reduced axis has size one, so the result broadcasts against the
//! input.

use crate::array::{
    axis_dims, axis_inner, axis_outer, axis_valid, extract_lane, has_empty_lane, keep_axis_shape,
    keep_axis_vec, lane_count, lemma_axis_decomposition, lemma_keep_axis_size,
    lemma_pair_index_lt, lemma_remove_axis_size, lemma_shape_size_nonneg, lemma_shape_size_pos,
    lemma_shape_size_zero, remove_axis_shape, remove_axis_vec, shape_size, Arr, OpError,
};
use crate::order::{ord_key, sort_key};
use vstd::arithmetic::div_mod::lemma_fundamental_div_mod_converse;
use vstd::prelude::*;

verus! {

/// Position `m` holds the lane's maximum and is the last position to do
/// so: everything is at most `s[m]` in the key order, and everything after
/// `m` is strictly below it.
pub open spec fn is_last_argmax(s: Seq<u64>, m: int) -> bool {
    &&& 0 <= m < s.len()
    &&& forall|j: int| 0 <= j < s.len() ==> ord_key(s[j]) <= ord_key(s[m])
    &&& forall|j: int| m < j < s.len() ==> ord_key(s[j]) < ord_key(s[m])
}

/// The position selected by the argmax of a lane.
pub open spec fn last_argmax(s: Seq<u64>) -> int {
    choose|m: int| is_last_argmax(s, m)
}

/// The maximal element of a lane: the one at the argmax position.
pub open spec fn lane_max(s: Seq<u64>) -> u64 {
    s[last_argmax(s)]
}

/// Every non-empty lane has a last argmax.
pub proof fn lemma_last_argmax_exists(s: Seq<u64>)
    requires
        s.len() > 0,
    ensures
        is_last_argmax(s, last_argmax(s)),
    decreases s.len(),
{
    if s.len() == 1 {
        assert(is_last_argmax(s, 0));
    } else {
        let d = s.drop_last();
        lemma_last_argmax_exists(d);
        let t = last_argmax(d);
        assert(forall|j: int| 0 <= j < d.len() ==> s[j] == d[j]);
        if ord_key(s.last()) >= ord_key(s[t]) {
            assert(is_last_argmax(s, s.len() - 1));
        } else {
            assert(is_last_argmax(s, t));
        }
    }
}

/// The last argmax of a lane is unique.
pub proof fn lemma_last_argmax_unique(s: Seq<u64>, m1: int, m2: int)
    requires
        is_last_argmax(s, m1),
        is_last_argmax(s, m2),
    ensures
        m1 == m2,
{
    if m1 < m2 {
        assert(ord_key(s[m2]) < ord_key(s[m1]));
        assert(ord_key(s[m1]) <= ord_key(s[m2]));
    }
    if m2 < m1 {
        assert(ord_key(s[m1]) < ord_key(s[m2]));
        assert(ord_key(s[m2]) <= ord_key(s[m1]));
    }
}

/// Find the last argmax of one lane.
pub fn lane_last_argmax(v: &Vec<u64>) -> (r: usize)
    requires
        v@.len() > 0,
    ensures
        is_last_argmax(v@, r as int),
{
    let mut best: usize = 0;
    let mut bk: u64 = sort_key(v[0]);
    let mut j: usize = 1;
    while j < v.len()
        invariant
            1 <= j <= v@.len(),
            (best as int) < j,
            bk == ord_key(v@[best as int]),
            forall|t: int| 0 <= t < j ==> ord_key(v@[t]) <= bk,
            forall|t: int| best < t < j ==> ord_key(v@[t]) < bk,
        decreases v@.len() - j,
    {
        let k = sort_key(v[j]);
        if k >= bk {
            best = j;
            bk = k;
        }
        j += 1;
    }
    best
}

/// What `maxf` returns on success: one element per lane, each the lane's
/// maximum, addressed by the packed `(outer, inner)` coordinate.
pub open spec fn maxf_post(a: Arr, axis: int, out: Arr) -> bool {
    &&& out.shape_spec() == remove_axis_shape(a.shape_spec(), axis)
    &&& out.data_spec().len() == lane_count(a.shape_spec(), axis)
    &&& forall|o: int, i: int|
        0 <= o < axis_outer(a.shape_spec(), axis) && 0 <= i < axis_inner(a.shape_spec(), axis)
            ==> out.data_spec()[o * axis_inner(a.shape_spec(), axis) + i] == lane_max(
            #[trigger] a.lane(axis, o, i),
        )
}

/// What `argmaxf` returns on success: one index per lane, each the
/// position of the lane's maximum.
pub open spec fn argmaxf_post(a: Arr, axis: int, out: Arr) -> bool {
    &&& out.shape_spec() == remove_axis_shape(a.shape_spec(), axis)
    &&& out.data_spec().len() == lane_count(a.shape_spec(), axis)
    &&& forall|o: int, i: int|
        0 <= o < axis_outer(a.shape_spec(), axis) && 0 <= i < axis_inner(a.shape_spec(), axis)
            ==> out.data_spec()[o * axis_inner(a.shape_spec(), axis) + i] == last_argmax(
            #[trigger] a.lane(axis, o, i),
        ) as u64
}

/// Lane maxima and lane argmaxes of every lane, packed row-major over the
/// `(outer, inner)` coordinates.
fn reduce_lanes(a: &Arr, axis: usize, outer: usize, la: usize, inner: usize) -> (r: (
    Vec<u64>,
    Vec<u64>,
))
    requires
        (axis as int) < a.rank(),
        outer as int == axis_outer(a.shape_spec(), axis as int),
        la == a.shape_spec()[axis as int],
        inner as int == axis_inner(a.shape_spec(), axis as int),
        la >= 1,
        inner >= 1,
        outer as int * (inner as int) <= usize::MAX as int,
    ensures
        r.0@.len() == outer as int * (inner as int),
        r.1@.len() == outer as int * (inner as int),
        forall|o: int, i: int|
            0 <= o < outer && 0 <= i < inner ==> {
                &&& r.0@[o * (inner as int) + i] == lane_max(#[trigger] a.lane(axis as int, o, i))
                &&& r.1@[o * (inner as int) + i] == last_argmax(a.lane(axis as int, o, i)) as u64
            },
{
    let mut maxes: Vec<u64> = Vec::new();
    let mut args: Vec<u64> = Vec::new();
    let mut o: usize = 0;
    while o < outer
        invariant
            (axis as int) < a.rank(),
            outer as int == axis_outer(a.shape_spec(), axis as int),
            la == a.shape_spec()[axis as int],
            inner as int == axis_inner(a.shape_spec(), axis as int),
            la >= 1,
            outer as int * (inner as int) <= usize::MAX as int,
            o <= outer,
            maxes@.len() == o as int * (inner as int),
            args@.len() == maxes@.len(),
            forall|t: int|
                0 <= t < maxes@.len() ==> {
                    &&& #[trigger] maxes@[t] == lane_max(
                        a.lane(axis as int, t / (inner as int), t % (inner as int)),
                    )
                    &&& args@[t] == last_argmax(
                        a.lane(axis as int, t / (inner as int), t % (inner as int)),
                    ) as u64
                },
        decreases outer - o,
    {
        let mut i: usize = 0;
        while i < inner
            invariant
                (axis as int) < a.rank(),
                outer as int == axis_outer(a.shape_spec(), axis as int),
                la == a.shape_spec()[axis as int],
                inner as int == axis_inner(a.shape_spec(), axis as int),
                la >= 1,
                outer as int * (inner as int) <= usize::MAX as int,
                o < outer,
                i <= inner,
                maxes@.len() == o as int * (inner as int) + i as int,
                args@.len() == maxes@.len(),
                forall|t: int|
                    0 <= t < maxes@.len() ==> {
                        &&& #[trigger] maxes@[t] == lane_max(
                            a.lane(axis as int, t / (inner as int), t % (inner as int)),
                        )
                        &&& args@[t] == last_argmax(
                            a.lane(axis as int, t / (inner as int), t % (inner as int)),
                        ) as u64
                    },
            decreases inner - i,
        {
            proof {
                lemma_pair_index_lt(o as int, i as int, outer as int, inner as int);
            }
            let lane = extract_lane(a, axis, la, inner, o, i);
            let m = lane_last_argmax(&lane);
            proof {
                lemma_last_argmax_exists(lane@);
                lemma_last_argmax_unique(lane@, m as int, last_argmax(lane@));
                lemma_fundamental_div_mod_converse(
                    o as int * (inner as int) + i as int,
                    inner as int,
                    o as int,
                    i as int,
                );
            }
            maxes.push(lane[m]);
            args.push(m as u64);
            proof {
                let t = o as int * (inner as int) + i as int;
                assert(maxes@[t] == lane@[m as int]);
                assert(args@[t] == m as u64);
                assert(lane_max(a.lane(axis as int, t / (inner as int), t % (inner as int)))
                    == lane@[m as int]);
            }
            i += 1;
        }
        proof {
            assert((o as int + 1) * (inner as int) == o as int * (inner as int) + inner as int)
                by (nonlinear_arith);
        }
        o += 1;
    }
    proof {
        assert forall|o2: int, i2: int| 0 <= o2 < outer && 0 <= i2 < inner implies {
            &&& maxes@[o2 * (inner as int) + i2] == lane_max(
                #[trigger] a.lane(axis as int, o2, i2),
            )
            &&& args@[o2 * (inner as int) + i2] == last_argmax(a.lane(axis as int, o2, i2)) as u64
        } by {
            lemma_pair_index_lt(o2, i2, outer as int, inner as int);
            lemma_fundamental_div_mod_converse(
                o2 * (inner as int) + i2,
                inner as int,
                o2,
                i2,
            );
        }
    }
    (maxes, args)
}

/// Shared validation and reduction: lane maxima and argmaxes of `a` along
/// `axis`, or the error the axis deserves.
fn reduced_parts(a: &Arr, axis: usize) -> (r: Result<(Vec<usize>, Vec<u64>, Vec<u64>), OpError>)
    ensures
        match r {
            Ok(parts) => {
                &&& axis_valid(*a, axis as int)
                &&& !has_empty_lane(*a, axis as int)
                &&& parts.0@ == remove_axis_shape(a.shape_spec(), axis as int)
                &&& parts.1@.len() == lane_count(a.shape_spec(), axis as int)
                &&& parts.2@.len() == lane_count(a.shape_spec(), axis as int)
                &&& forall|o: int, i: int|
                    0 <= o < axis_outer(a.shape_spec(), axis as int) && 0 <= i < axis_inner(
                        a.shape_spec(),
                        axis as int,
                    ) ==> {
                        &&& parts.1@[o * axis_inner(a.shape_spec(), axis as int) + i] == lane_max(
                            #[trigger] a.lane(axis as int, o, i),
                        )
                        &&& parts.2@[o * axis_inner(a.shape_spec(), axis as int) + i]
                            == last_argmax(a.lane(axis as int, o, i)) as u64
                    }
            },
            Err(OpError::InvalidAxis) => !axis_valid(*a, axis as int),
            Err(OpError::EmptyLane) => axis_valid(*a, axis as int) && has_empty_lane(
                *a,
                axis as int,
            ),
        },
{
    a.check_len();
    let _dn = a.data().len();
    let shape = a.shape();
    let n = shape.len();
    if axis >= n {
        return Err(OpError::InvalidAxis);
    }
    // Look for a zero dimension away from the axis: such a dimension means
    // the array has no lanes at all along `axis`.
    let mut k: usize = 0;
    let mut zero_at: Option<usize> = None;
    while k < n
        invariant
            n == shape@.len(),
            k <= n,
            (axis as int) < n,
            match zero_at {
                Some(z) => z < n && z != axis && shape@[z as int] == 0,
                None => forall|t: int| 0 <= t < k && t != axis ==> shape@[t] >= 1,
            },
        decreases n - k,
    {
        if k != axis && shape[k] == 0 {
            zero_at = Some(k);
        }
        k += 1;
    }
    let rshape = remove_axis_vec(shape, axis);
    match zero_at {
        Some(z) => {
            proof {
                lemma_remove_axis_size(a.shape_spec(), axis as int);
                let rz = if z < axis {
                    z as int
                } else {
                    z - 1
                };
                assert(remove_axis_shape(a.shape_spec(), axis as int)[rz] == 0);
                lemma_shape_size_zero(remove_axis_shape(a.shape_spec(), axis as int), rz);
                lemma_shape_size_nonneg(a.shape_spec().subrange(0, axis as int));
                lemma_shape_size_nonneg(
                    a.shape_spec().subrange(axis as int + 1, a.shape_spec().len() as int),
                );
                assert(axis_outer(a.shape_spec(), axis as int) <= 0 || axis_inner(
                    a.shape_spec(),
                    axis as int,
                ) <= 0) by (nonlinear_arith)
                    requires
                        axis_outer(a.shape_spec(), axis as int) * axis_inner(
                            a.shape_spec(),
                            axis as int,
                        ) == 0,
                ;
            }
            Ok((rshape, Vec::new(), Vec::new()))
        },
        None => {
            if shape[axis] == 0 {
                proof {
                    lemma_remove_axis_size(a.shape_spec(), axis as int);
                    assert(forall|t: int|
                        0 <= t < remove_axis_shape(a.shape_spec(), axis as int).len()
                            ==> remove_axis_shape(a.shape_spec(), axis as int)[t] >= 1);
                    lemma_shape_size_pos(remove_axis_shape(a.shape_spec(), axis as int));
                }
                return Err(OpError::EmptyLane);
            }
            assert(forall|t: int| 0 <= t < n ==> shape@[t] >= 1);
            assert(shape_size(shape@) <= usize::MAX as int);
            proof {
                lemma_axis_decomposition(a.shape_spec(), axis as int);
                lemma_shape_size_nonneg(a.shape_spec().subrange(0, axis as int));
                lemma_shape_size_nonneg(
                    a.shape_spec().subrange(axis as int + 1, a.shape_spec().len() as int),
                );
                assert(lane_count(a.shape_spec(), axis as int) >= 0) by (nonlinear_arith)
                    requires
                        axis_outer(a.shape_spec(), axis as int) >= 0,
                        axis_inner(a.shape_spec(), axis as int) >= 0,
                        lane_count(a.shape_spec(), axis as int) == axis_outer(
                            a.shape_spec(),
                            axis as int,
                        ) * axis_inner(a.shape_spec(), axis as int),
                ;
                assert(lane_count(a.shape_spec(), axis as int) <= shape_size(a.shape_spec()))
                    by (nonlinear_arith)
                    requires
                        shape_size(a.shape_spec()) == axis_outer(a.shape_spec(), axis as int) * (
                        a.shape_spec()[axis as int] as int) * axis_inner(
                            a.shape_spec(),
                            axis as int,
                        ),
                        lane_count(a.shape_spec(), axis as int) == axis_outer(
                            a.shape_spec(),
                            axis as int,
                        ) * axis_inner(a.shape_spec(), axis as int),
                        a.shape_spec()[axis as int] >= 1,
                        axis_outer(a.shape_spec(), axis as int) >= 0,
                        axis_inner(a.shape_spec(), axis as int) >= 0,
                        lane_count(a.shape_spec(), axis as int) >= 0,
                ;
            }
            let (outer, la, inner) = axis_dims(shape, axis);
            let (maxes, args) = reduce_lanes(a, axis, outer, la, inner);
            proof {
                lemma_remove_axis_size(a.shape_spec(), axis as int);
            }
            Ok((rshape, maxes, args))
        },
    }
}

/// The maximum of every lane along `axis`, with the axis removed from the
/// result's shape.  Fails with `InvalidAxis` exactly when `axis` does not
/// name a dimension, and with `EmptyLane` exactly when the array has
/// empty lanes along `axis`.
pub fn maxf(a: &Arr, axis: usize) -> (r: Result<Arr, OpError>)
    ensures
        match r {
            Ok(out) => {
                &&& axis_valid(*a, axis as int)
                &&& !has_empty_lane(*a, axis as int)
                &&& maxf_post(*a, axis as int, out)
            },
            Err(OpError::InvalidAxis) => !axis_valid(*a, axis as int),
            Err(OpError::EmptyLane) => axis_valid(*a, axis as int) && has_empty_lane(
                *a,
                axis as int,
            ),
        },
{
    match reduced_parts(a, axis) {
        Ok((rshape, maxes, _)) => {
            proof {
                lemma_remove_axis_size(a.shape_spec(), axis as int);
            }
            Ok(Arr::make(rshape, maxes))
        },
        Err(e) => Err(e),
    }
}

/// The position of every lane's maximum along `axis` (ties towards the
/// last occurrence), with the axis removed from the result's shape.
/// Failure conditions match `maxf`.
pub fn argmaxf(a: &Arr, axis: usize) -> (r: Result<Arr, OpError>)
    ensures
        match r {
            Ok(out) => {
                &&& axis_valid(*a, axis as int)
                &&& !has_empty_lane(*a, axis as int)
                &&& argmaxf_post(*a, axis as int, out)
            },
            Err(OpError::InvalidAxis) => !axis_valid(*a, axis as int),
            Err(OpError::EmptyLane) => axis_valid(*a, axis as int) && has_empty_lane(
                *a,
                axis as int,
            ),
        },
{
    match reduced_parts(a, axis) {
        Ok((rshape, _, args)) => {
            proof {
                lemma_remove_axis_size(a.shape_spec(), axis as int);
            }
            Ok(Arr::make(rshape, args))
        },
        Err(e) => Err(e),
    }
}

/// `maxf` with the reduced axis kept as size one, so the result broadcasts
/// against the input.  Failure conditions match `maxf`.
pub fn maxf_keep_dims(a: &Arr, axis: usize) -> (r: Result<Arr, OpError>)
    ensures
        match r {
            Ok(out) => {
                &&& axis_valid(*a, axis as int)
                &&& !has_empty_lane(*a, axis as int)
                &&& out.shape_spec() == keep_axis_shape(a.shape_spec(), axis as int)
                &&& out.data_spec().len() == lane_count(a.shape_spec(), axis as int)
                &&& forall|o: int, i: int|
                    0 <= o < axis_outer(a.shape_spec(), axis as int) && 0 <= i < axis_inner(
                        a.shape_spec(),
                        axis as int,
                    ) ==> out.data_spec()[o * axis_inner(a.shape_spec(), axis as int) + i]
                        == lane_max(#[trigger] a.lane(axis as int, o, i))
            },
            Err(OpError::InvalidAxis) => !axis_valid(*a, axis as int),
            Err(OpError::EmptyLane) => axis_valid(*a, axis as int) && has_empty_lane(
                *a,
                axis as int,
            ),
        },
{
    match reduced_parts(a, axis) {
        Ok((_, maxes, _)) => {
            let kshape = keep_axis_vec(a.shape(), axis);
            proof {
                lemma_keep_axis_size(a.shape_spec(), axis as int);
            }
            Ok(Arr::make(kshape, maxes))
        },
        Err(e) => Err(e),
    }
}

/// `argmaxf` with the reduced axis kept as size one.  Failure conditions
/// match `maxf`.
pub fn argmaxf_keep_dims(a: &Arr, axis: usize) -> (r: Result<Arr, OpError>)
    ensures
        match r {
            Ok(out) => {
                &&& axis_valid(*a, axis as int)
                &&& !has_empty_lane(*a, axis as int)
                &&& out.shape_spec() == keep_axis_shape(a.shape_spec(), axis as int)
                &&& out.data_spec().len() == lane_count(a.shape_spec(), axis as int)
                &&& forall|o: int, i: int|
                    0 <= o < axis_outer(a.shape_spec(), axis as int) && 0 <= i < axis_inner(
                        a.shape_spec(),
                        axis as int,
                    ) ==> out.data_spec()[o * axis_inner(a.shape_spec(), axis as int) + i]
                        == last_argmax(#[trigger] a.lane(axis as int, o, i)) as u64
            },
            Err(OpError::InvalidAxis) => !axis_valid(*a, axis as int),
            Err(OpError::EmptyLane) => axis_valid(*a, axis as int) && has_empty_lane(
                *a,
                axis as int,
            ),
        },
{
    match reduced_parts(a, axis) {
        Ok((_, _, args)) => {
            let kshape = keep_axis_vec(a.shape(), axis);
            proof {
                lemma_keep_axis_size(a.shape_spec(), axis as int);
            }
            Ok(Arr::make(kshape, args))
        },
        Err(e) => Err(e),
    }
}

/// The cross-consistency law of the two reductions: indexing a lane at the
/// position `argmaxf` reports yields the value `maxf` reports, so the two
/// never disagree about which element is "the" maximum, ties included.
pub proof fn lemma_argmax_selects_max(a: Arr, axis: int, m: Arr, am: Arr, o: int, i: int)
    requires
        axis_valid(a, axis),
        maxf_post(a, axis, m),
        argmaxf_post(a, axis, am),
        0 <= o < axis_outer(a.shape_spec(), axis),
        0 <= i < axis_inner(a.shape_spec(), axis),
        a.lane(axis, o, i).len() > 0,
    ensures
        a.lane(axis, o, i)[am.data_spec()[o * axis_inner(a.shape_spec(), axis) + i] as int]
            == m.data_spec()[o * axis_inner(a.shape_spec(), axis) + i],
        is_last_argmax(
            a.lane(axis, o, i),
            am.data_spec()[o * axis_inner(a.shape_spec(), axis) + i] as int,
        ),
{
    lemma_last_argmax_exists(a.lane(axis, o, i));
}

} // verus!
