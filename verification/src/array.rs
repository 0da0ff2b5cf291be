//! A dense N-dimensional array of 64-bit words, stored row-major.
//!
//! An [`Arr`] owns a *shape* (one size per dimension) and a flat data
//! vector whose length always equals the product of the shape.  A *lane*
//! along an axis is the one-dimensional sequence obtained by fixing every
//! index but that axis; lanes are what the reductions and the sorts in this
//! crate act on.  For a shape `s` and an axis `a` the lanes are addressed
//! by an *outer* coordinate `o` (flattening the dimensions before `a`) and
//! an *inner* coordinate `i` (flattening the dimensions after `a`); element
//! `j` of lane `(o, i)` sits at flat position `(o * s[a] + j) * inner + i`.

use vstd::arithmetic::div_mod::lemma_div_denominator;
use vstd::arithmetic::div_mod::lemma_fundamental_div_mod;
use vstd::prelude::*;

verus! {

/// The number of elements an array of shape `s` holds: the product of all
/// dimension sizes (one, for the empty shape).
pub open spec fn shape_size(s: Seq<usize>) -> int
    decreases s.len(),
{
    if s.len() == 0 {
        1
    } else {
        shape_size(s.drop_last()) * (s.last() as int)
    }
}

/// Product of the dimensions before `axis`: the number of distinct outer
/// coordinates.
pub open spec fn axis_outer(s: Seq<usize>, axis: int) -> int {
    shape_size(s.subrange(0, axis))
}

/// Product of the dimensions after `axis`: the number of distinct inner
/// coordinates, and the flat stride between lane neighbours.
pub open spec fn axis_inner(s: Seq<usize>, axis: int) -> int {
    shape_size(s.subrange(axis + 1, s.len() as int))
}

/// How many lanes an array of shape `s` has along `axis`.
pub open spec fn lane_count(s: Seq<usize>, axis: int) -> int {
    axis_outer(s, axis) * axis_inner(s, axis)
}

/// The shape with `axis` removed.
pub open spec fn remove_axis_shape(s: Seq<usize>, axis: int) -> Seq<usize> {
    s.subrange(0, axis) + s.subrange(axis + 1, s.len() as int)
}

/// The shape with `axis` collapsed to size one (the keep-dims form).
pub open spec fn keep_axis_shape(s: Seq<usize>, axis: int) -> Seq<usize> {
    s.update(axis, 1usize)
}

/// Flat position of element `j` of the lane with outer coordinate `o` and
/// inner coordinate `i`, along `axis` of shape `s`.
pub open spec fn lane_flat(s: Seq<usize>, axis: int, o: int, i: int, j: int) -> int {
    (o * (s[axis] as int) + j) * axis_inner(s, axis) + i
}

/// The lane with outer coordinate `o` and inner coordinate `i`, along
/// `axis`, of an array of shape `s` with flat contents `data`.
pub open spec fn lane_seq(s: Seq<usize>, data: Seq<u64>, axis: int, o: int, i: int) -> Seq<u64> {
    Seq::new(s[axis] as nat, |j: int| data[lane_flat(s, axis, o, i, j)])
}

/// A shape never has a negative element count.
pub proof fn lemma_shape_size_nonneg(s: Seq<usize>)
    ensures
        shape_size(s) >= 0,
    decreases s.len(),
{
    if s.len() > 0 {
        lemma_shape_size_nonneg(s.drop_last());
        assert(shape_size(s.drop_last()) * (s.last() as int) >= 0) by (nonlinear_arith)
            requires
                shape_size(s.drop_last()) >= 0,
                s.last() as int >= 0,
        ;
    }
}

/// Element counts multiply under shape concatenation.
pub proof fn lemma_shape_size_concat(a: Seq<usize>, b: Seq<usize>)
    ensures
        shape_size(a + b) == shape_size(a) * shape_size(b),
    decreases b.len(),
{
    if b.len() == 0 {
        assert(a + b =~= a);
    } else {
        lemma_shape_size_concat(a, b.drop_last());
        assert((a + b).drop_last() =~= a + b.drop_last());
        assert((shape_size(a) * shape_size(b.drop_last())) * (b.last() as int) == shape_size(a)
            * (shape_size(b.drop_last()) * (b.last() as int))) by (nonlinear_arith);
    }
}

/// A shape all of whose dimensions are positive holds at least one element.
pub proof fn lemma_shape_size_pos(s: Seq<usize>)
    requires
        forall|k: int| 0 <= k < s.len() ==> s[k] >= 1,
    ensures
        shape_size(s) >= 1,
    decreases s.len(),
{
    if s.len() > 0 {
        lemma_shape_size_pos(s.drop_last());
        assert(shape_size(s.drop_last()) * (s.last() as int) >= 1) by (nonlinear_arith)
            requires
                shape_size(s.drop_last()) >= 1,
                s.last() as int >= 1,
        ;
    }
}

/// A shape with a zero dimension holds no elements.
pub proof fn lemma_shape_size_zero(s: Seq<usize>, k: int)
    requires
        0 <= k < s.len(),
        s[k] == 0,
    ensures
        shape_size(s) == 0,
    decreases s.len(),
{
    assert(shape_size(s) == shape_size(s.drop_last()) * (s.last() as int));
    if k == s.len() - 1 {
        assert(s.last() as int == 0);
    } else {
        lemma_shape_size_zero(s.drop_last(), k);
        assert(0 * (s.last() as int) == 0) by (nonlinear_arith);
    }
}

/// The element count factors around any axis as `outer * s[axis] * inner`.
pub proof fn lemma_axis_decomposition(s: Seq<usize>, axis: int)
    requires
        0 <= axis < s.len(),
    ensures
        shape_size(s) == axis_outer(s, axis) * (s[axis] as int) * axis_inner(s, axis),
{
    let pre = s.subrange(0, axis);
    let mid = seq![s[axis]];
    let post = s.subrange(axis + 1, s.len() as int);
    assert(s =~= pre + (mid + post));
    lemma_shape_size_concat(pre, mid + post);
    lemma_shape_size_concat(mid, post);
    assert(mid.drop_last() =~= Seq::<usize>::empty());
    assert(shape_size(Seq::<usize>::empty()) == 1);
    assert(mid.last() == s[axis]);
    assert(shape_size(mid) == 1 * (s[axis] as int));
    assert(shape_size(pre) * ((s[axis] as int) * shape_size(post)) == shape_size(pre) * (
    s[axis] as int) * shape_size(post)) by (nonlinear_arith);
}

/// Removing an axis leaves `lane_count` many elements: one per lane.
pub proof fn lemma_remove_axis_size(s: Seq<usize>, axis: int)
    requires
        0 <= axis < s.len(),
    ensures
        shape_size(remove_axis_shape(s, axis)) == lane_count(s, axis),
        remove_axis_shape(s, axis).len() == s.len() - 1,
{
    lemma_shape_size_concat(s.subrange(0, axis), s.subrange(axis + 1, s.len() as int));
}

/// Collapsing an axis to size one leaves `lane_count` many elements, keeps
/// the rank, and keeps the outer and inner structure of the shape.
pub proof fn lemma_keep_axis_size(s: Seq<usize>, axis: int)
    requires
        0 <= axis < s.len(),
    ensures
        shape_size(keep_axis_shape(s, axis)) == lane_count(s, axis),
        keep_axis_shape(s, axis).len() == s.len(),
        keep_axis_shape(s, axis)[axis] == 1usize,
        axis_outer(keep_axis_shape(s, axis), axis) == axis_outer(s, axis),
        axis_inner(keep_axis_shape(s, axis), axis) == axis_inner(s, axis),
{
    let t = keep_axis_shape(s, axis);
    assert(t.subrange(0, axis) =~= s.subrange(0, axis));
    assert(t.subrange(axis + 1, t.len() as int) =~= s.subrange(axis + 1, s.len() as int));
    lemma_axis_decomposition(t, axis);
    assert(axis_outer(s, axis) * 1 * axis_inner(s, axis) == lane_count(s, axis)) by (nonlinear_arith);
}

/// Every lane position lies inside the array.
pub proof fn lemma_lane_flat_bound(s: Seq<usize>, axis: int, o: int, i: int, j: int)
    requires
        0 <= axis < s.len(),
        0 <= o < axis_outer(s, axis),
        0 <= i < axis_inner(s, axis),
        0 <= j < s[axis] as int,
    ensures
        0 <= lane_flat(s, axis, o, i, j) < shape_size(s),
{
    lemma_axis_decomposition(s, axis);
    assert(0 <= (o * (s[axis] as int) + j) * axis_inner(s, axis) + i < axis_outer(s, axis) * (
    s[axis] as int) * axis_inner(s, axis)) by (nonlinear_arith)
        requires
            0 <= o < axis_outer(s, axis),
            0 <= i < axis_inner(s, axis),
            0 <= j < s[axis] as int,
    ;
}

/// Distinct lane positions are distinct flat positions: the lane map is
/// injective over in-range coordinates.
pub proof fn lemma_lane_flat_injective(
    s: Seq<usize>,
    axis: int,
    o1: int,
    i1: int,
    j1: int,
    o2: int,
    i2: int,
    j2: int,
)
    requires
        0 <= axis < s.len(),
        0 <= o1 < axis_outer(s, axis),
        0 <= i1 < axis_inner(s, axis),
        0 <= j1 < s[axis] as int,
        0 <= o2 < axis_outer(s, axis),
        0 <= i2 < axis_inner(s, axis),
        0 <= j2 < s[axis] as int,
        lane_flat(s, axis, o1, i1, j1) == lane_flat(s, axis, o2, i2, j2),
    ensures
        o1 == o2 && i1 == i2 && j1 == j2,
{
    let la = s[axis] as int;
    let inner = axis_inner(s, axis);
    assert(i1 == i2 && o1 * la + j1 == o2 * la + j2) by (nonlinear_arith)
        requires
            inner > 0,
            0 <= i1 < inner,
            0 <= i2 < inner,
            (o1 * la + j1) * inner + i1 == (o2 * la + j2) * inner + i2,
            o1 * la + j1 >= 0,
            o2 * la + j2 >= 0,
    ;
    assert(o1 == o2 && j1 == j2) by (nonlinear_arith)
        requires
            la > 0,
            0 <= j1 < la,
            0 <= j2 < la,
            o1 * la + j1 == o2 * la + j2,
    ;
}

/// Why an axis operation was refused.
#[derive(Clone, Copy, Debug, PartialEq, Eq, Structural)]
pub enum OpError {
    /// The axis index is not below the array's rank.
    InvalidAxis,
    /// A reduction met a lane of length zero, for which no maximum exists.
    EmptyLane,
}

/// The axis names a dimension of the array.
pub open spec fn axis_valid(a: Arr, axis: int) -> bool {
    0 <= axis < a.rank()
}

/// The array has at least one lane along `axis` and that lane is empty:
/// the axis has size zero while every other dimension is inhabited.
pub open spec fn has_empty_lane(a: Arr, axis: int) -> bool {
    a.shape_spec()[axis] == 0 && lane_count(a.shape_spec(), axis) > 0
}

/// Between two positive factors, a product strictly dominates the packed
/// pair index.
pub(crate) proof fn lemma_pair_index_lt(o2: int, i2: int, o: int, inner: int) by (nonlinear_arith)
    requires
        0 <= i2 < inner,
        0 <= o2 < o,
    ensures
        0 <= o2 * inner + i2 < o * inner,
{
}

/// A contiguous slice of a positive shape accounts for between one element
/// and the whole array.
pub proof fn lemma_subrange_size_le(s: Seq<usize>, from: int, to: int)
    requires
        0 <= from <= to <= s.len(),
        forall|k: int| 0 <= k < s.len() ==> s[k] >= 1,
    ensures
        1 <= shape_size(s.subrange(from, to)) <= shape_size(s),
{
    let a = s.subrange(0, from);
    let m = s.subrange(from, to);
    let b = s.subrange(to, s.len() as int);
    assert(s =~= (a + m) + b);
    lemma_shape_size_concat(a, m);
    lemma_shape_size_concat(a + m, b);
    lemma_shape_size_pos(a);
    lemma_shape_size_pos(m);
    lemma_shape_size_pos(b);
    assert(shape_size(m) <= (shape_size(a) * shape_size(m)) * shape_size(b)) by (nonlinear_arith)
        requires
            shape_size(a) >= 1,
            shape_size(m) >= 1,
            shape_size(b) >= 1,
    ;
}

/// A dense N-dimensional array of 64-bit words in row-major order.
pub struct Arr {
    shape: Vec<usize>,
    data: Vec<u64>,
}

impl Arr {
    /// The shape, as a sequence of dimension sizes.
    pub closed spec fn shape_spec(&self) -> Seq<usize> {
        self.shape@
    }

    /// The flat contents, in row-major order.
    pub closed spec fn data_spec(&self) -> Seq<u64> {
        self.data@
    }

    #[verifier::type_invariant]
    spec fn wf(&self) -> bool {
        self.data@.len() == shape_size(self.shape@)
    }

    /// The number of dimensions.
    pub open spec fn rank(&self) -> int {
        self.shape_spec().len() as int
    }

    /// The lane with outer coordinate `o` and inner coordinate `i` along
    /// `axis`.
    pub open spec fn lane(&self, axis: int, o: int, i: int) -> Seq<u64> {
        lane_seq(self.shape_spec(), self.data_spec(), axis, o, i)
    }

    /// The flat length always equals the element count of the shape.
    pub fn check_len(&self)
        ensures
            self.data_spec().len() == shape_size(self.shape_spec()),
    {
        proof {
            use_type_invariant(self);
        }
    }

    /// Build an array from a shape and flat row-major contents.  Succeeds
    /// exactly when the contents have one word per element of the shape.
    pub fn from_parts(shape: Vec<usize>, data: Vec<u64>) -> (r: Option<Arr>)
        ensures
            match r {
                Some(a) => {
                    &&& a.shape_spec() == shape@
                    &&& a.data_spec() == data@
                    &&& data@.len() == shape_size(shape@)
                },
                None => data@.len() != shape_size(shape@),
            },
    {
        let n = shape.len();
        let mut k: usize = 0;
        let mut zero_at: Option<usize> = None;
        while k < n
            invariant
                n == shape@.len(),
                k <= n,
                match zero_at {
                    Some(z) => z < n && shape@[z as int] == 0,
                    None => forall|t: int| 0 <= t < k ==> shape@[t] >= 1,
                },
            decreases n - k,
        {
            if shape[k] == 0 {
                zero_at = Some(k);
            }
            k += 1;
        }
        match zero_at {
            Some(z) => {
                proof {
                    lemma_shape_size_zero(shape@, z as int);
                }
                if data.len() == 0 {
                    Some(Arr::make(shape, data))
                } else {
                    None
                }
            },
            None => {
                let len = data.len();
                let mut acc: usize = 1;
                let mut k: usize = 0;
                while k < n
                    invariant
                        n == shape@.len(),
                        k <= n,
                        len == data@.len(),
                        forall|t: int| 0 <= t < n ==> shape@[t] >= 1,
                        acc as int == shape_size(shape@.subrange(0, k as int)),
                        acc >= 1,
                    decreases n - k,
                {
                    let d = shape[k];
                    proof {
                        assert(shape@.subrange(0, k as int + 1).drop_last() =~= shape@.subrange(
                            0,
                            k as int,
                        ));
                        assert(shape_size(shape@.subrange(0, k as int + 1)) == acc as int * (
                        d as int));
                    }
                    if acc > len / d {
                        proof {
                            lemma_fundamental_div_mod(len as int, d as int);
                            assert(acc as int * (d as int) > len as int) by (nonlinear_arith)
                                requires
                                    d as int >= 1,
                                    acc as int >= (len as int) / (d as int) + 1,
                                    len as int == (d as int) * ((len as int) / (d as int)) + (
                                    len as int) % (d as int),
                                    0 <= (len as int) % (d as int) < d as int,
                            ;
                            let rest = shape@.subrange(k as int + 1, n as int);
                            assert(shape@ =~= shape@.subrange(0, k as int + 1) + rest);
                            lemma_shape_size_concat(shape@.subrange(0, k as int + 1), rest);
                            lemma_shape_size_pos(rest);
                            assert(shape_size(shape@) > len as int) by (nonlinear_arith)
                                requires
                                    shape_size(shape@) == shape_size(
                                        shape@.subrange(0, k as int + 1),
                                    ) * shape_size(rest),
                                    shape_size(shape@.subrange(0, k as int + 1)) > len as int,
                                    shape_size(rest) >= 1,
                            ;
                        }
                        return None;
                    }
                    proof {
                        lemma_fundamental_div_mod(len as int, d as int);
                        assert(acc as int * (d as int) <= len as int) by (nonlinear_arith)
                            requires
                                d as int >= 1,
                                acc as int <= (len as int) / (d as int),
                                len as int == (d as int) * ((len as int) / (d as int)) + (
                                len as int) % (d as int),
                                0 <= (len as int) % (d as int),
                        ;
                        assert(acc as int * (d as int) >= 1) by (nonlinear_arith)
                            requires
                                acc as int >= 1,
                                d as int >= 1,
                        ;
                    }
                    acc = acc * d;
                    k += 1;
                }
                assert(shape@.subrange(0, n as int) =~= shape@);
                if acc == len {
                    Some(Arr::make(shape, data))
                } else {
                    None
                }
            },
        }
    }

    /// The shape vector.
    pub fn shape(&self) -> (s: &Vec<usize>)
        ensures
            s@ == self.shape_spec(),
    {
        &self.shape
    }

    /// The flat row-major contents.
    pub fn data(&self) -> (d: &Vec<u64>)
        ensures
            d@ == self.data_spec(),
    {
        &self.data
    }

    /// Crate-internal constructor for callers that have already proved the
    /// length invariant.
    pub(crate) fn make(shape: Vec<usize>, data: Vec<u64>) -> (a: Arr)
        requires
            data@.len() == shape_size(shape@),
        ensures
            a.shape_spec() == shape@,
            a.data_spec() == data@,
    {
        Arr { shape, data }
    }

    /// Crate-internal decomposition into shape and contents.
    pub(crate) fn into_parts(self) -> (r: (Vec<usize>, Vec<u64>))
        ensures
            r.0@ == self.shape_spec(),
            r.1@ == self.data_spec(),
            r.1@.len() == shape_size(r.0@),
    {
        proof {
            use_type_invariant(&self);
        }
        let Arr { shape, data } = self;
        (shape, data)
    }
}

/// Duplicate a shape vector.
pub(crate) fn copy_shape(v: &Vec<usize>) -> (r: Vec<usize>)
    ensures
        r@ == v@,
{
    let mut r: Vec<usize> = Vec::new();
    let mut k: usize = 0;
    while k < v.len()
        invariant
            k <= v@.len(),
            r@.len() == k,
            forall|t: int| 0 <= t < k ==> r@[t] == v@[t],
        decreases v@.len() - k,
    {
        r.push(v[k]);
        k += 1;
    }
    assert(r@ =~= v@);
    r
}

/// Build the shape with `axis` removed.
pub(crate) fn remove_axis_vec(shape: &Vec<usize>, axis: usize) -> (r: Vec<usize>)
    requires
        (axis as int) < shape@.len(),
    ensures
        r@ == remove_axis_shape(shape@, axis as int),
{
    let n = shape.len();
    let mut r: Vec<usize> = Vec::new();
    let mut k: usize = 0;
    while k < n
        invariant
            n == shape@.len(),
            (axis as int) < n,
            k <= n,
            r@.len() == if k <= axis {
                k as int
            } else {
                k - 1
            },
            forall|t: int| 0 <= t < k && t < axis ==> r@[t] == shape@[t],
            forall|t: int| axis < t < k ==> r@[t - 1] == shape@[t],
        decreases n - k,
    {
        if k != axis {
            r.push(shape[k]);
        }
        k += 1;
    }
    assert(r@ =~= remove_axis_shape(shape@, axis as int));
    r
}

/// Build the shape with `axis` collapsed to size one.
pub(crate) fn keep_axis_vec(shape: &Vec<usize>, axis: usize) -> (r: Vec<usize>)
    requires
        (axis as int) < shape@.len(),
    ensures
        r@ == keep_axis_shape(shape@, axis as int),
{
    let n = shape.len();
    let mut r: Vec<usize> = Vec::new();
    let mut k: usize = 0;
    while k < n
        invariant
            n == shape@.len(),
            (axis as int) < n,
            k <= n,
            r@.len() == k as int,
            forall|t: int| 0 <= t < k ==> r@[t] == keep_axis_shape(shape@, axis as int)[t],
        decreases n - k,
    {
        if k == axis {
            r.push(1);
        } else {
            r.push(shape[k]);
        }
        k += 1;
    }
    assert(r@ =~= keep_axis_shape(shape@, axis as int));
    r
}

/// Multiply the dimensions of `shape` from `from` (inclusive) to `to`
/// (exclusive).  The positive-shape precondition keeps every partial
/// product within the machine word.
pub(crate) fn range_product(shape: &Vec<usize>, from: usize, to: usize) -> (p: usize)
    requires
        from <= to <= shape@.len(),
        forall|k: int| 0 <= k < shape@.len() ==> shape@[k] >= 1,
        shape_size(shape@) <= usize::MAX as int,
    ensures
        p as int == shape_size(shape@.subrange(from as int, to as int)),
        p >= 1,
{
    let mut acc: usize = 1;
    let mut k: usize = from;
    while k < to
        invariant
            from <= k <= to <= shape@.len(),
            forall|t: int| 0 <= t < shape@.len() ==> shape@[t] >= 1,
            shape_size(shape@) <= usize::MAX as int,
            acc as int == shape_size(shape@.subrange(from as int, k as int)),
            acc >= 1,
        decreases to - k,
    {
        let d = shape[k];
        proof {
            assert(shape@.subrange(from as int, k as int + 1).drop_last() =~= shape@.subrange(
                from as int,
                k as int,
            ));
            assert(shape_size(shape@.subrange(from as int, k as int + 1)) == acc as int * (
            d as int));
            lemma_subrange_size_le(shape@, from as int, k as int + 1);
            assert(acc as int * (d as int) >= 1) by (nonlinear_arith)
                requires
                    acc as int >= 1,
                    d as int >= 1,
            ;
        }
        acc = acc * d;
        k += 1;
    }
    acc
}

/// The outer lane coordinate count, the axis length, and the inner lane
/// coordinate count of `shape` around `axis`.
pub(crate) fn axis_dims(shape: &Vec<usize>, axis: usize) -> (r: (usize, usize, usize))
    requires
        (axis as int) < shape@.len(),
        forall|k: int| 0 <= k < shape@.len() ==> shape@[k] >= 1,
        shape_size(shape@) <= usize::MAX as int,
    ensures
        r.0 as int == axis_outer(shape@, axis as int),
        r.1 == shape@[axis as int],
        r.2 as int == axis_inner(shape@, axis as int),
        r.0 >= 1 && r.1 >= 1 && r.2 >= 1,
{
    let n = shape.len();
    let outer = range_product(shape, 0, axis);
    let la = shape[axis];
    let inner = range_product(shape, axis + 1, n);
    (outer, la, inner)
}

/// The outer coordinate of the lane through flat position `t`.
pub open spec fn flat_o(s: Seq<usize>, axis: int, t: int) -> int {
    (t / axis_inner(s, axis)) / (s[axis] as int)
}

/// The in-lane offset of flat position `t`.
pub open spec fn flat_j(s: Seq<usize>, axis: int, t: int) -> int {
    (t / axis_inner(s, axis)) % (s[axis] as int)
}

/// The inner coordinate of the lane through flat position `t`.
pub open spec fn flat_i(s: Seq<usize>, axis: int, t: int) -> int {
    t % axis_inner(s, axis)
}

/// Every flat position decomposes uniquely into lane coordinates.
pub proof fn lemma_flat_decompose(s: Seq<usize>, axis: int, t: int)
    requires
        0 <= axis < s.len(),
        axis_outer(s, axis) >= 1,
        (s[axis] as int) >= 1,
        axis_inner(s, axis) >= 1,
        0 <= t < shape_size(s),
    ensures
        0 <= flat_o(s, axis, t) < axis_outer(s, axis),
        0 <= flat_j(s, axis, t) < s[axis] as int,
        0 <= flat_i(s, axis, t) < axis_inner(s, axis),
        t == lane_flat(s, axis, flat_o(s, axis, t), flat_i(s, axis, t), flat_j(s, axis, t)),
{
    let outer = axis_outer(s, axis);
    let la = s[axis] as int;
    let inner = axis_inner(s, axis);
    lemma_axis_decomposition(s, axis);
    lemma_fundamental_div_mod(t, inner);
    let q = t / inner;
    let i = t % inner;
    assert(0 <= q < outer * la) by (nonlinear_arith)
        requires
            inner >= 1,
            0 <= t < outer * la * inner,
            t == inner * q + i,
            0 <= i < inner,
    ;
    lemma_fundamental_div_mod(q, la);
    let o = q / la;
    let j = q % la;
    assert(0 <= o < outer) by (nonlinear_arith)
        requires
            la >= 1,
            0 <= q < outer * la,
            q == la * o + j,
            0 <= j < la,
    ;
    assert(t == (o * la + j) * inner + i) by (nonlinear_arith)
        requires
            t == inner * q + i,
            q == la * o + j,
    ;
}

/// Every position of a reduced array is the packed coordinate
/// `o * inner + i` of exactly one lane, so a statement over all lane
/// coordinates covers every element of the reduction.
pub proof fn lemma_lane_position_decompose(s: Seq<usize>, axis: int, t: int)
    requires
        0 <= axis < s.len(),
        0 <= t < lane_count(s, axis),
    ensures
        axis_inner(s, axis) >= 1,
        0 <= t / axis_inner(s, axis) < axis_outer(s, axis),
        0 <= t % axis_inner(s, axis) < axis_inner(s, axis),
        t == (t / axis_inner(s, axis)) * axis_inner(s, axis) + t % axis_inner(s, axis),
{
    let outer = axis_outer(s, axis);
    let inner = axis_inner(s, axis);
    lemma_shape_size_nonneg(s.subrange(0, axis));
    lemma_shape_size_nonneg(s.subrange(axis + 1, s.len() as int));
    assert(inner >= 1) by (nonlinear_arith)
        requires
            outer >= 0,
            inner >= 0,
            outer * inner > 0,
    ;
    lemma_fundamental_div_mod(t, inner);
    assert(0 <= t / inner < outer) by (nonlinear_arith)
        requires
            inner >= 1,
            0 <= t < outer * inner,
            t == inner * (t / inner) + t % inner,
            0 <= t % inner < inner,
    ;
}

/// The packed lane coordinate `o * inner + i` of the lane running through
/// flat position `t`.  This is also the flat position, in a reduction of
/// the array along `axis` (in either output shape), that holds the reduced
/// value of that lane — the pairing a broadcasted subtract or divide
/// against a reduction uses, as the softmax pipeline does.
pub fn lane_of(a: &Arr, axis: usize, t: usize) -> (r: usize)
    requires
        (axis as int) < a.rank(),
        (t as int) < a.data_spec().len(),
    ensures
        r as int == flat_o(a.shape_spec(), axis as int, t as int) * axis_inner(
            a.shape_spec(),
            axis as int,
        ) + flat_i(a.shape_spec(), axis as int, t as int),
        (r as int) < lane_count(a.shape_spec(), axis as int),
{
    a.check_len();
    let ghost s = a.shape_spec();
    let _dn = a.data().len();
    proof {
        assert forall|k: int| 0 <= k < s.len() implies s[k] >= 1 by {
            if s[k] == 0 {
                lemma_shape_size_zero(s, k);
            }
        }
    }
    let (outer, la, inner) = axis_dims(a.shape(), axis);
    let ghost tq = t as int / (la as int * inner as int);
    proof {
        lemma_axis_decomposition(s, axis as int);
        assert(la as int * (inner as int) >= 1 && la as int * (inner as int) <= shape_size(s))
            by (nonlinear_arith)
            requires
                shape_size(s) == axis_outer(s, axis as int) * (la as int) * (inner as int),
                la >= 1,
                inner >= 1,
                outer >= 1,
                outer as int == axis_outer(s, axis as int),
        ;
        lemma_div_denominator(t as int, inner as int, la as int);
        assert(inner as int * (la as int) == la as int * (inner as int)) by (nonlinear_arith);
        lemma_fundamental_div_mod(t as int, la as int * (inner as int));
        assert(0 <= tq < outer as int) by (nonlinear_arith)
            requires
                la as int * (inner as int) >= 1,
                0 <= (t as int) < (outer as int) * (la as int) * (inner as int),
                t as int == (la as int * (inner as int)) * tq + t as int % (la as int * (
                inner as int)),
                0 <= t as int % (la as int * (inner as int)) < la as int * (inner as int),
        ;
        lemma_fundamental_div_mod(t as int, inner as int);
        lemma_pair_index_lt(tq, t as int % (inner as int), outer as int, inner as int);
        assert(outer as int * (inner as int) <= shape_size(s)) by (nonlinear_arith)
            requires
                shape_size(s) == axis_outer(s, axis as int) * (la as int) * (inner as int),
                outer as int == axis_outer(s, axis as int),
                la >= 1,
                outer >= 1,
                inner >= 1,
        ;
    }
    let block = la * inner;
    (t / block) * inner + t % inner
}

/// Copy lane `(o, i)` along `axis` out of the array.
pub(crate) fn extract_lane(a: &Arr, axis: usize, la: usize, inner: usize, o: usize, i: usize) -> (v:
    Vec<u64>)
    requires
        (axis as int) < a.rank(),
        la == a.shape_spec()[axis as int],
        inner as int == axis_inner(a.shape_spec(), axis as int),
        (o as int) < axis_outer(a.shape_spec(), axis as int),
        (i as int) < inner as int,
    ensures
        v@ == a.lane(axis as int, o as int, i as int),
{
    a.check_len();
    let dn = a.data.len();
    let mut v: Vec<u64> = Vec::new();
    let mut j: usize = 0;
    while j < la
        invariant
            dn == a.data_spec().len(),
            (axis as int) < a.rank(),
            la == a.shape_spec()[axis as int],
            inner as int == axis_inner(a.shape_spec(), axis as int),
            (o as int) < axis_outer(a.shape_spec(), axis as int),
            (i as int) < inner as int,
            a.data_spec().len() == shape_size(a.shape_spec()),
            j <= la,
            v@.len() == j as int,
            forall|t: int| 0 <= t < j ==> v@[t] == a.lane(axis as int, o as int, i as int)[t],
        decreases la - j,
    {
        proof {
            lemma_lane_flat_bound(a.shape_spec(), axis as int, o as int, i as int, j as int);
            assert(lane_flat(a.shape_spec(), axis as int, o as int, i as int, j as int) < dn as int);
            assert(o as int * (la as int) >= 0 && o as int * (la as int) + j as int <= (o as int * (
            la as int) + j as int) * (inner as int) + i as int) by (nonlinear_arith)
                requires
                    o as int >= 0,
                    la as int >= 0,
                    j as int >= 0,
                    i as int >= 0,
                    inner as int >= 1,
            ;
        }
        let idx = (o * la + j) * inner + i;
        let e = a.data[idx];
        v.push(e);
        j += 1;
    }
    assert(v@ =~= a.lane(axis as int, o as int, i as int));
    v
}

} // verus!
