//! Stable per-lane sorting and argsort along an axis.
//!
//! Every lane is replaced by its elements in ascending key order
//! ([`crate::order::ord_key`]), or by the permutation of in-lane positions
//! that produces that order.  The sort is *stable*: elements with one key
//! keep their original relative order.  A stable sorting permutation is
//! exactly a permutation of `0..len` that is strictly increasing under the
//! lexicographic `(key, position)` order, which makes it unique — the
//! round-trip law [`lemma_argsort_applies_to_sort`] rests on that
//! uniqueness.

use crate::array::{
    axis_dims, axis_inner, axis_outer, axis_valid, copy_shape, extract_lane, flat_i, flat_j,
    flat_o, lane_flat, lane_seq, lemma_axis_decomposition, lemma_flat_decompose,
    lemma_lane_flat_bound, lemma_lane_flat_injective, lemma_remove_axis_size,
    lemma_shape_size_nonneg, lemma_shape_size_zero, remove_axis_shape, shape_size, Arr, OpError,
};
use crate::order::{ord_key, sort_key};
use vstd::arithmetic::div_mod::lemma_fundamental_div_mod_converse;
use vstd::prelude::*;
use vstd::relations::{sorted_by, total_ordering};
use vstd::seq_lib::lemma_sorted_unique;

verus! {

broadcast use
    vstd::seq_lib::group_to_multiset_ensures,
    vstd::multiset::group_multiset_axioms,
    vstd::multiset::group_multiset_properties,
;

/// The lexicographic `(key, position)` order on in-lane positions of `s`:
/// position `x` precedes `y` when its element has the smaller key, or on
/// equal keys when `x` comes first.  A total order on positions.
pub open spec fn lex_leq(s: Seq<u64>) -> spec_fn(int, int) -> bool {
    |x: int, y: int|
        ord_key(s[x]) < ord_key(s[y]) || (ord_key(s[x]) == ord_key(s[y]) && x <= y)
}

/// The identity permutation `0, 1, ..., n-1`.
pub open spec fn identity_perm(n: int) -> Seq<int> {
    Seq::new(n as nat, |t: int| t)
}

/// `p` is the stable sorting permutation of `s`: a rearrangement of all
/// positions `0..len`, strictly increasing under `(key, position)`.
pub open spec fn is_stable_sort_perm(s: Seq<u64>, p: Seq<int>) -> bool {
    &&& p.to_multiset() == identity_perm(s.len() as int).to_multiset()
    &&& sorted_by(p, lex_leq(s))
}

/// The stable sorting permutation of `s`.
pub open spec fn stable_sort_perm(s: Seq<u64>) -> Seq<int> {
    choose|p: Seq<int>| is_stable_sort_perm(s, p)
}

/// `s` rearranged by `p`: element `j` of the result is `s[p[j]]`.
pub open spec fn apply_perm(s: Seq<u64>, p: Seq<int>) -> Seq<u64> {
    Seq::new(p.len(), |j: int| s[p[j]])
}

/// The lane after stable sorting.
pub open spec fn sorted_lane(s: Seq<u64>) -> Seq<u64> {
    apply_perm(s, stable_sort_perm(s))
}

/// The stable sorting permutation as lane contents: each position as a
/// 64-bit word.
pub open spec fn perm_codes(s: Seq<u64>) -> Seq<u64> {
    stable_sort_perm(s).map_values(|x: int| x as u64)
}

/// A vector of positions viewed as a mathematical permutation.
pub open spec fn as_int_perm(p: Seq<usize>) -> Seq<int> {
    p.map_values(|x: usize| x as int)
}

/// The `(key, position)` order is a total ordering.
pub proof fn lemma_lex_total_ordering(s: Seq<u64>)
    ensures
        total_ordering(lex_leq(s)),
{
    let leq = lex_leq(s);
    assert forall|x: int| #[trigger] leq(x, x) by {}
    assert forall|x: int, y: int| #[trigger] leq(x, y) && #[trigger] leq(y, x) implies x == y by {}
    assert forall|x: int, y: int, z: int| #[trigger] leq(x, y) && #[trigger] leq(y, z) implies leq(
        x,
        z,
    ) by {}
    assert forall|x: int, y: int| #![trigger leq(x, y)] leq(x, y) || leq(y, x) by {}
}

/// Every lane has a stable sorting permutation.
pub proof fn lemma_stable_sort_perm_exists(s: Seq<u64>)
    ensures
        is_stable_sort_perm(s, stable_sort_perm(s)),
{
    let leq = lex_leq(s);
    lemma_lex_total_ordering(s);
    let ident = identity_perm(s.len() as int);
    ident.lemma_sort_by_ensures(leq);
    assert(ident.to_multiset() =~= ident.sort_by(leq).to_multiset());
    assert(is_stable_sort_perm(s, ident.sort_by(leq)));
    assert(exists|p: Seq<int>| is_stable_sort_perm(s, p));
}

/// A stable sorting permutation has one entry per element and every entry
/// is an in-lane position.
pub proof fn lemma_stable_sort_perm_in_range(s: Seq<u64>, p: Seq<int>)
    requires
        is_stable_sort_perm(s, p),
    ensures
        p.len() == s.len(),
        forall|j: int| 0 <= j < p.len() ==> 0 <= #[trigger] p[j] < s.len(),
{
    let n = s.len() as int;
    let ident = identity_perm(n);
    assert(p.to_multiset().len() == p.len());
    assert(ident.to_multiset().len() == ident.len());
    assert forall|j: int| 0 <= j < p.len() implies 0 <= #[trigger] p[j] < s.len() by {
        assert(p.contains(p[j]));
        assert(p.to_multiset().count(p[j]) > 0);
        assert(ident.to_multiset().count(p[j]) > 0);
        assert(ident.contains(p[j]));
        let k = choose|k: int| 0 <= k < ident.len() && ident[k] == p[j];
        assert(ident[k] == k);
    }
}

/// The stable sorting permutation is unique: any two permutations of a
/// lane that are both stably sorted are equal.  This is what makes the
/// argsort of a lane well defined.
pub proof fn lemma_stable_sort_perm_unique(s: Seq<u64>, p: Seq<int>, q: Seq<int>)
    requires
        is_stable_sort_perm(s, p),
        is_stable_sort_perm(s, q),
    ensures
        p == q,
{
    lemma_lex_total_ordering(s);
    lemma_sorted_unique(p, q, lex_leq(s));
    assert(p =~= q);
}

/// Bundled facts about the canonical stable sorting permutation.
pub proof fn lemma_stable_sort_perm_props(s: Seq<u64>)
    ensures
        is_stable_sort_perm(s, stable_sort_perm(s)),
        stable_sort_perm(s).len() == s.len(),
        forall|j: int| 0 <= j < s.len() ==> 0 <= #[trigger] stable_sort_perm(s)[j] < s.len(),
        sorted_lane(s).len() == s.len(),
        perm_codes(s).len() == s.len(),
{
    lemma_stable_sort_perm_exists(s);
    lemma_stable_sort_perm_in_range(s, stable_sort_perm(s));
}

/// A stable sorting permutation mentions every in-lane position.
pub proof fn lemma_stable_sort_perm_onto(s: Seq<u64>, p: Seq<int>, v: int)
    requires
        is_stable_sort_perm(s, p),
        0 <= v < s.len(),
    ensures
        exists|k: int| 0 <= k < p.len() && p[k] == v,
{
    let ident = identity_perm(s.len() as int);
    assert(ident[v] == v);
    assert(ident.contains(v));
    assert(ident.to_multiset().count(v) > 0);
    assert(p.to_multiset().count(v) > 0);
    assert(p.contains(v));
}

/// Rearranging a lane by a permutation of all its positions keeps exactly
/// its elements.
pub proof fn lemma_apply_perm_multiset(s: Seq<u64>, p: Seq<int>)
    requires
        p.len() == s.len(),
        p.to_multiset() == identity_perm(s.len() as int).to_multiset(),
    ensures
        apply_perm(s, p).to_multiset() == s.to_multiset(),
    decreases s.len(),
{
    let n = s.len() as int;
    if n == 0 {
        assert(apply_perm(s, p) =~= Seq::<u64>::empty());
        assert(s =~= Seq::<u64>::empty());
    } else {
        let ident = identity_perm(n);
        assert(ident[n - 1] == n - 1);
        assert(ident.contains(n - 1));
        assert(ident.to_multiset().count(n - 1) > 0);
        assert(p.to_multiset().count(n - 1) > 0);
        assert(p.contains(n - 1));
        let k = choose|k: int| 0 <= k < p.len() && p[k] == n - 1;
        let p2 = p.remove(k);
        assert(p.remove(k).to_multiset() == p.to_multiset().remove(n - 1));
        assert(ident =~= identity_perm(n - 1).push(n - 1));
        assert(identity_perm(n - 1).push(n - 1).to_multiset() == identity_perm(
            n - 1,
        ).to_multiset().insert(n - 1));
        assert(p2.to_multiset() =~= identity_perm(n - 1).to_multiset());
        // Entries of `p2` name positions below the last one.
        let ident2 = identity_perm(n - 1);
        assert forall|j: int| 0 <= j < p2.len() implies 0 <= #[trigger] p2[j] < n - 1 by {
            assert(p2.contains(p2[j]));
            assert(p2.to_multiset().count(p2[j]) > 0);
            assert(ident2.to_multiset().count(p2[j]) > 0);
            assert(ident2.contains(p2[j]));
            let t = choose|t: int| 0 <= t < ident2.len() && ident2[t] == p2[j];
            assert(ident2[t] == t);
        }
        let s2 = s.drop_last();
        assert(apply_perm(s, p2) =~= apply_perm(s2, p2));
        lemma_apply_perm_multiset(s2, p2);
        let q = apply_perm(s, p);
        assert(q.remove(k) =~= apply_perm(s, p2));
        assert(q.remove(k).to_multiset() == q.to_multiset().remove(q[k]));
        assert(q[k] == s.last());
        assert(q.to_multiset() =~= q.to_multiset().remove(s.last()).insert(s.last())) by {
            assert(q.contains(q[k]));
            assert(q.to_multiset().count(s.last()) > 0);
        }
        assert(s =~= s2.push(s.last()));
        assert(s2.push(s.last()).to_multiset() == s2.to_multiset().insert(s.last()));
        assert(q.to_multiset() =~= s.to_multiset());
    }
}

/// Sorting a lane keeps exactly its elements: nothing is lost, added or
/// duplicated.
pub proof fn lemma_sorted_lane_same_elements(s: Seq<u64>)
    ensures
        sorted_lane(s).to_multiset() == s.to_multiset(),
{
    lemma_stable_sort_perm_props(s);
    lemma_apply_perm_multiset(s, stable_sort_perm(s));
}

/// A sorted lane ascends: earlier elements never exceed later ones in the
/// key order.
pub proof fn lemma_sorted_lane_ascending(s: Seq<u64>, j: int, k: int)
    requires
        0 <= j <= k < s.len(),
    ensures
        ord_key(sorted_lane(s)[j]) <= ord_key(sorted_lane(s)[k]),
{
    lemma_stable_sort_perm_props(s);
    let p = stable_sort_perm(s);
    if j < k {
        assert(lex_leq(s)(p[j], p[k]));
    }
}

/// The sort and the max reductions resolve ties the same way: the
/// position a stable sort sends to the end of a lane is exactly the last
/// argmax of that lane, so `sortf`/`argsortf` and `maxf`/`argmaxf` never
/// disagree about which element is "the" maximum.
pub proof fn lemma_sort_and_argmax_agree(s: Seq<u64>)
    requires
        s.len() > 0,
    ensures
        stable_sort_perm(s).last() == crate::reduce::last_argmax(s),
{
    lemma_stable_sort_perm_props(s);
    let p = stable_sort_perm(s);
    let leq = lex_leq(s);
    lemma_lex_total_ordering(s);
    let m = p.last();
    assert(0 <= m < s.len());
    assert forall|j: int| 0 <= j < s.len() implies ord_key(s[j]) <= ord_key(s[m]) by {
        lemma_stable_sort_perm_onto(s, p, j);
        let k = choose|k: int| 0 <= k < p.len() && p[k] == j;
        if k < p.len() - 1 {
            assert(leq(p[k], p[p.len() - 1]));
        }
    }
    assert forall|j: int| m < j < s.len() implies ord_key(s[j]) < ord_key(s[m]) by {
        lemma_stable_sort_perm_onto(s, p, j);
        let k = choose|k: int| 0 <= k < p.len() && p[k] == j;
        if k < p.len() - 1 {
            assert(leq(p[k], p[p.len() - 1]));
        }
    }
    assert(crate::reduce::is_last_argmax(s, m));
    crate::reduce::lemma_last_argmax_exists(s);
    crate::reduce::lemma_last_argmax_unique(s, m, crate::reduce::last_argmax(s));
}

/// Compute the stable sorting permutation of one lane by insertion
/// from the back.
pub fn lane_stable_argsort(v: &Vec<u64>) -> (r: Vec<usize>)
    ensures
        r@.len() == v@.len(),
        is_stable_sort_perm(v@, as_int_perm(r@)),
{
    let n = v.len();
    let mut idx: Vec<usize> = Vec::new();
    let mut e: usize = 0;
    while e < n
        invariant
            n == v@.len(),
            e <= n,
            idx@.len() == e,
            forall|k: int| 0 <= k < idx@.len() ==> #[trigger] idx@[k] < e,
            as_int_perm(idx@).to_multiset() == identity_perm(e as int).to_multiset(),
            sorted_by(as_int_perm(idx@), lex_leq(v@)),
        decreases n - e,
    {
        let ek = sort_key(v[e]);
        let mut pos: usize = idx.len();
        while pos > 0 && ek < sort_key(v[idx[pos - 1]])
            invariant
                n == v@.len(),
                e < n,
                ek == ord_key(v@[e as int]),
                idx@.len() == e,
                forall|k: int| 0 <= k < idx@.len() ==> #[trigger] idx@[k] < e,
                pos <= e,
                forall|k: int|
                    pos <= k < idx@.len() ==> ord_key(v@[e as int]) < ord_key(
                        v@[#[trigger] idx@[k] as int],
                    ),
            decreases pos,
        {
            pos -= 1;
        }
        let ghost old_idx = idx@;
        idx.insert(pos, e);
        proof {
            let leq = lex_leq(v@);
            lemma_lex_total_ordering(v@);
            let old_p = as_int_perm(old_idx);
            let new_p = as_int_perm(idx@);
            assert(new_p =~= old_p.insert(pos as int, e as int));
            // Multiset: one new position, `e` itself.
            assert(identity_perm(e as int + 1) =~= identity_perm(e as int).push(e as int));
            assert(old_p.insert(pos as int, e as int).to_multiset() == old_p.to_multiset().insert(
                e as int,
            ));
            // Order: `e` fits between its neighbours.
            assert forall|x: int, y: int| 0 <= x < y < new_p.len() implies #[trigger] leq(
                new_p[x],
                new_p[y],
            ) by {
                if y < pos {
                    assert(leq(old_p[x], old_p[y]));
                } else if x < pos && y == pos {
                    if x < pos - 1 {
                        assert(leq(old_p[x], old_p[pos - 1]));
                    }
                    assert(leq(old_p[pos - 1], e as int));
                } else if x < pos && y > pos {
                    assert(leq(old_p[x], old_p[y - 1]));
                } else if x == pos {
                    assert(ord_key(v@[e as int]) < ord_key(v@[old_p[y - 1]]));
                    assert(leq(e as int, old_p[y - 1]));
                } else {
                    assert(leq(old_p[x - 1], old_p[y - 1]));
                }
            }
        }
        e += 1;
    }
    idx
}

/// Rearrange one lane by a vector of in-lane positions.
pub(crate) fn lane_apply(v: &Vec<u64>, p: &Vec<usize>) -> (r: Vec<u64>)
    requires
        forall|k: int| 0 <= k < p@.len() ==> #[trigger] p@[k] < v@.len(),
    ensures
        r@ == apply_perm(v@, as_int_perm(p@)),
{
    let mut r: Vec<u64> = Vec::new();
    let mut j: usize = 0;
    while j < p.len()
        invariant
            forall|k: int| 0 <= k < p@.len() ==> #[trigger] p@[k] < v@.len(),
            j <= p@.len(),
            r@.len() == j,
            forall|k: int| 0 <= k < j ==> #[trigger] r@[k] == v@[p@[k] as int],
        decreases p@.len() - j,
    {
        r.push(v[p[j]]);
        j += 1;
    }
    assert(r@ =~= apply_perm(v@, as_int_perm(p@)));
    r
}

/// What `sortf` returns on success: every lane stably sorted, shape kept.
pub open spec fn sortf_post(a: Arr, axis: int, out: Arr) -> bool {
    &&& out.shape_spec() == a.shape_spec()
    &&& out.data_spec().len() == a.data_spec().len()
    &&& forall|o: int, i: int|
        0 <= o < axis_outer(a.shape_spec(), axis) && 0 <= i < axis_inner(a.shape_spec(), axis)
            ==> out.lane(axis, o, i) == sorted_lane(#[trigger] a.lane(axis, o, i))
}

/// What `argsortf` returns on success: every lane replaced by its stable
/// sorting permutation, shape kept.
pub open spec fn argsortf_post(a: Arr, axis: int, out: Arr) -> bool {
    &&& out.shape_spec() == a.shape_spec()
    &&& out.data_spec().len() == a.data_spec().len()
    &&& forall|o: int, i: int|
        0 <= o < axis_outer(a.shape_spec(), axis) && 0 <= i < axis_inner(a.shape_spec(), axis)
            ==> out.lane(axis, o, i) == perm_codes(#[trigger] a.lane(axis, o, i))
}

/// Position `t` of the two output buffers holds its final sorted value and
/// its final argsort value for the lane running through it.
spec fn placed(a: Arr, axis: int, data_v: Seq<u64>, data_a: Seq<u64>, t: int) -> bool {
    let s = a.shape_spec();
    let lane = a.lane(axis, flat_o(s, axis, t), flat_i(s, axis, t));
    &&& data_v[t] == sorted_lane(lane)[flat_j(s, axis, t)]
    &&& data_a[t] == perm_codes(lane)[flat_j(s, axis, t)]
}

/// Sorted lane contents and argsort contents of every lane, scattered into
/// two full-shape row-major buffers.
fn sorted_lanes_data(a: &Arr, axis: usize, outer: usize, la: usize, inner: usize) -> (r: (
    Vec<u64>,
    Vec<u64>,
))
    requires
        (axis as int) < a.rank(),
        outer as int == axis_outer(a.shape_spec(), axis as int),
        la == a.shape_spec()[axis as int],
        inner as int == axis_inner(a.shape_spec(), axis as int),
        outer >= 1,
        la >= 1,
        inner >= 1,
        shape_size(a.shape_spec()) <= usize::MAX as int,
    ensures
        r.0@.len() == shape_size(a.shape_spec()),
        r.1@.len() == shape_size(a.shape_spec()),
        forall|o: int, i: int|
            0 <= o < outer && 0 <= i < inner ==> {
                &&& lane_seq(a.shape_spec(), r.0@, axis as int, o, i) == sorted_lane(
                    #[trigger] a.lane(axis as int, o, i),
                )
                &&& lane_seq(a.shape_spec(), r.1@, axis as int, o, i) == perm_codes(
                    a.lane(axis as int, o, i),
                )
            },
{
    let ghost s = a.shape_spec();
    a.check_len();
    let size = a.data().len();
    proof {
        lemma_axis_decomposition(s, axis as int);
    }
    let mut vals_out: Vec<u64> = vec![0u64; size];
    let mut args_out: Vec<u64> = vec![0u64; size];
    let mut o: usize = 0;
    while o < outer
        invariant
            s == a.shape_spec(),
            (axis as int) < a.rank(),
            outer as int == axis_outer(s, axis as int),
            la == s[axis as int],
            inner as int == axis_inner(s, axis as int),
            outer >= 1,
            la >= 1,
            inner >= 1,
            size == shape_size(s),
            size == shape_size(s) as int,
            shape_size(s) == outer as int * (la as int) * (inner as int),
            o <= outer,
            vals_out@.len() == size,
            args_out@.len() == size,
            forall|t: int|
                0 <= t < size && flat_o(s, axis as int, t) < o ==> #[trigger] placed(
                    *a,
                    axis as int,
                    vals_out@,
                    args_out@,
                    t,
                ),
        decreases outer - o,
    {
        let mut i: usize = 0;
        while i < inner
            invariant
                s == a.shape_spec(),
                (axis as int) < a.rank(),
                outer as int == axis_outer(s, axis as int),
                la == s[axis as int],
                inner as int == axis_inner(s, axis as int),
                outer >= 1,
                la >= 1,
                inner >= 1,
                size == shape_size(s),
                shape_size(s) == outer as int * (la as int) * (inner as int),
                o < outer,
                i <= inner,
                vals_out@.len() == size,
                args_out@.len() == size,
                forall|t: int|
                    0 <= t < size && (flat_o(s, axis as int, t) < o || (flat_o(s, axis as int, t)
                        == o && flat_i(s, axis as int, t) < i)) ==> #[trigger] placed(
                        *a,
                        axis as int,
                        vals_out@,
                        args_out@,
                        t,
                    ),
            decreases inner - i,
        {
            let lane = extract_lane(a, axis, la, inner, o, i);
            let p = lane_stable_argsort(&lane);
            proof {
                lemma_stable_sort_perm_props(lane@);
                lemma_stable_sort_perm_unique(lane@, as_int_perm(p@), stable_sort_perm(lane@));
                assert forall|k: int| 0 <= k < p@.len() implies #[trigger] p@[k] < lane@.len() by {
                    assert(as_int_perm(p@)[k] == p@[k] as int);
                    assert(0 <= stable_sort_perm(lane@)[k] < lane@.len());
                }
            }
            let vals = lane_apply(&lane, &p);
            proof {
                assert(vals@ == sorted_lane(lane@));
            }
            let mut j: usize = 0;
            while j < la
                invariant
                    s == a.shape_spec(),
                    (axis as int) < a.rank(),
                    outer as int == axis_outer(s, axis as int),
                    la == s[axis as int],
                    inner as int == axis_inner(s, axis as int),
                    outer >= 1,
                    la >= 1,
                    inner >= 1,
                    size == shape_size(s),
                    shape_size(s) == outer as int * (la as int) * (inner as int),
                    o < outer,
                    i < inner,
                    j <= la,
                    vals_out@.len() == size,
                    args_out@.len() == size,
                    lane@ == a.lane(axis as int, o as int, i as int),
                    vals@ == sorted_lane(lane@),
                    vals@.len() == la,
                    p@.len() == la,
                    as_int_perm(p@) == stable_sort_perm(lane@),
                    forall|t: int|
                        0 <= t < size && (flat_o(s, axis as int, t) < o || (flat_o(
                            s,
                            axis as int,
                            t,
                        ) == o && flat_i(s, axis as int, t) < i)) ==> #[trigger] placed(
                            *a,
                            axis as int,
                            vals_out@,
                            args_out@,
                            t,
                        ),
                    forall|j2: int|
                        #![trigger lane_flat(s, axis as int, o as int, i as int, j2)]
                        0 <= j2 < j ==> {
                            &&& vals_out@[lane_flat(s, axis as int, o as int, i as int, j2)]
                                == sorted_lane(lane@)[j2]
                            &&& args_out@[lane_flat(s, axis as int, o as int, i as int, j2)]
                                == perm_codes(lane@)[j2]
                        },
                decreases la - j,
            {
                proof {
                    lemma_lane_flat_bound(s, axis as int, o as int, i as int, j as int);
                    assert(o as int * (la as int) >= 0 && o as int * (la as int) + j as int <= (
                    o as int * (la as int) + j as int) * (inner as int) + i as int)
                        by (nonlinear_arith)
                        requires
                            o as int >= 0,
                            la as int >= 0,
                            j as int >= 0,
                            i as int >= 0,
                            inner as int >= 1,
                    ;
                }
                let idx = (o * la + j) * inner + i;
                let ghost old_vals_out = vals_out@;
                let ghost old_args_out = args_out@;
                vals_out.set(idx, vals[j]);
                args_out.set(idx, p[j] as u64);
                proof {
                    assert(idx as int == lane_flat(s, axis as int, o as int, i as int, j as int));
                    lemma_flat_decompose(s, axis as int, idx as int);
                    lemma_lane_flat_injective(
                        s,
                        axis as int,
                        o as int,
                        i as int,
                        j as int,
                        flat_o(s, axis as int, idx as int),
                        flat_i(s, axis as int, idx as int),
                        flat_j(s, axis as int, idx as int),
                    );
                    assert forall|j2: int|
                        #![trigger lane_flat(s, axis as int, o as int, i as int, j2)]
                        0 <= j2 < j + 1 implies {
                        &&& vals_out@[lane_flat(s, axis as int, o as int, i as int, j2)]
                            == sorted_lane(lane@)[j2]
                        &&& args_out@[lane_flat(s, axis as int, o as int, i as int, j2)]
                            == perm_codes(lane@)[j2]
                    } by {
                        lemma_lane_flat_bound(s, axis as int, o as int, i as int, j2);
                        if j2 < j && lane_flat(s, axis as int, o as int, i as int, j2) == lane_flat(
                            s,
                            axis as int,
                            o as int,
                            i as int,
                            j as int,
                        ) {
                            lemma_lane_flat_injective(
                                s,
                                axis as int,
                                o as int,
                                i as int,
                                j2,
                                o as int,
                                i as int,
                                j as int,
                            );
                            assert(false);
                        }
                    }
                    assert forall|t: int|
                        0 <= t < size && (flat_o(s, axis as int, t) < o || (flat_o(
                            s,
                            axis as int,
                            t,
                        ) == o && flat_i(s, axis as int, t) < i)) implies #[trigger] placed(
                        *a,
                        axis as int,
                        vals_out@,
                        args_out@,
                        t,
                    ) by {
                        assert(placed(*a, axis as int, old_vals_out, old_args_out, t));
                        assert(t != idx as int);
                    }
                }
                j += 1;
            }
            proof {
                assert forall|t: int|
                    0 <= t < size && (flat_o(s, axis as int, t) < o || (flat_o(s, axis as int, t)
                        == o && flat_i(s, axis as int, t) < i + 1)) implies #[trigger] placed(
                    *a,
                    axis as int,
                    vals_out@,
                    args_out@,
                    t,
                ) by {
                    if !(flat_o(s, axis as int, t) < o || (flat_o(s, axis as int, t) == o && flat_i(
                        s,
                        axis as int,
                        t,
                    ) < i)) {
                        lemma_flat_decompose(s, axis as int, t);
                        assert(flat_o(s, axis as int, t) == o && flat_i(s, axis as int, t) == i);
                        assert(vals_out@[lane_flat(
                            s,
                            axis as int,
                            o as int,
                            i as int,
                            flat_j(s, axis as int, t),
                        )] == sorted_lane(lane@)[flat_j(s, axis as int, t)]);
                    }
                }
            }
            i += 1;
        }
        proof {
            assert forall|t: int| 0 <= t < size && flat_o(s, axis as int, t) < o + 1 implies
                #[trigger] placed(*a, axis as int, vals_out@, args_out@, t) by {
                if flat_o(s, axis as int, t) == o {
                    lemma_flat_decompose(s, axis as int, t);
                }
            }
        }
        o += 1;
    }
    proof {
        assert forall|o2: int, i2: int| 0 <= o2 < outer && 0 <= i2 < inner implies {
            &&& lane_seq(s, vals_out@, axis as int, o2, i2) == sorted_lane(
                #[trigger] a.lane(axis as int, o2, i2),
            )
            &&& lane_seq(s, args_out@, axis as int, o2, i2) == perm_codes(
                a.lane(axis as int, o2, i2),
            )
        } by {
            lemma_stable_sort_perm_props(a.lane(axis as int, o2, i2));
            assert forall|j2: int|
                #![trigger lane_flat(s, axis as int, o2, i2, j2)]
                0 <= j2 < la implies {
                &&& vals_out@[lane_flat(s, axis as int, o2, i2, j2)] == sorted_lane(
                    a.lane(axis as int, o2, i2),
                )[j2]
                &&& args_out@[lane_flat(s, axis as int, o2, i2, j2)] == perm_codes(
                    a.lane(axis as int, o2, i2),
                )[j2]
            } by {
                lemma_lane_flat_bound(s, axis as int, o2, i2, j2);
                let t = lane_flat(s, axis as int, o2, i2, j2);
                lemma_flat_decompose(s, axis as int, t);
                lemma_lane_flat_injective(
                    s,
                    axis as int,
                    o2,
                    i2,
                    j2,
                    flat_o(s, axis as int, t),
                    flat_i(s, axis as int, t),
                    flat_j(s, axis as int, t),
                );
                assert(placed(*a, axis as int, vals_out@, args_out@, t));
            }
            assert(lane_seq(s, vals_out@, axis as int, o2, i2) =~= sorted_lane(
                a.lane(axis as int, o2, i2),
            ));
            assert(lane_seq(s, args_out@, axis as int, o2, i2) =~= perm_codes(
                a.lane(axis as int, o2, i2),
            ));
        }
    }
    (vals_out, args_out)
}

/// Shared validation and sorting: the sorted and argsort buffers of `a`
/// along `axis`, or `InvalidAxis`.
fn sorted_parts(a: &Arr, axis: usize) -> (r: Result<(Vec<u64>, Vec<u64>), OpError>)
    ensures
        match r {
            Ok(parts) => {
                &&& axis_valid(*a, axis as int)
                &&& parts.0@.len() == a.data_spec().len()
                &&& parts.1@.len() == a.data_spec().len()
                &&& forall|o: int, i: int|
                    0 <= o < axis_outer(a.shape_spec(), axis as int) && 0 <= i < axis_inner(
                        a.shape_spec(),
                        axis as int,
                    ) ==> {
                        &&& lane_seq(a.shape_spec(), parts.0@, axis as int, o, i) == sorted_lane(
                            #[trigger] a.lane(axis as int, o, i),
                        )
                        &&& lane_seq(a.shape_spec(), parts.1@, axis as int, o, i) == perm_codes(
                            a.lane(axis as int, o, i),
                        )
                    }
            },
            Err(e) => e == OpError::InvalidAxis && !axis_valid(*a, axis as int),
        },
{
    let ghost s = a.shape_spec();
    a.check_len();
    let _dn = a.data().len();
    assert(shape_size(s) <= usize::MAX as int);
    let shape = a.shape();
    let n = shape.len();
    if axis >= n {
        return Err(OpError::InvalidAxis);
    }
    let mut k: usize = 0;
    let mut zero_at: Option<usize> = None;
    while k < n
        invariant
            n == shape@.len(),
            k <= n,
            match zero_at {
                Some(z) => z < n && shape@[z as int] == 0,
                None => forall|t: int| 0 <= t < k ==> shape@[t] >= 1,
            },
        decreases n - k,
    {
        if shape[k] == 0 {
            zero_at = Some(k);
        }
        k += 1;
    }
    match zero_at {
        Some(z) => {
            proof {
                lemma_shape_size_zero(s, z as int);
                if s[axis as int] == 0 {
                    // Every lane is empty, and so is its sorted image.
                    assert forall|o: int, i: int|
                        0 <= o < axis_outer(s, axis as int) && 0 <= i < axis_inner(
                            s,
                            axis as int,
                        ) implies {
                        &&& lane_seq(s, Seq::<u64>::empty(), axis as int, o, i) == sorted_lane(
                            #[trigger] a.lane(axis as int, o, i),
                        )
                        &&& lane_seq(s, Seq::<u64>::empty(), axis as int, o, i) == perm_codes(
                            a.lane(axis as int, o, i),
                        )
                    } by {
                        lemma_stable_sort_perm_props(a.lane(axis as int, o, i));
                        assert(lane_seq(s, Seq::<u64>::empty(), axis as int, o, i) =~= sorted_lane(
                            a.lane(axis as int, o, i),
                        ));
                        assert(lane_seq(s, Seq::<u64>::empty(), axis as int, o, i) =~= perm_codes(
                            a.lane(axis as int, o, i),
                        ));
                    }
                } else {
                    // A zero dimension away from the axis: no lanes at all.
                    let rz = if z < axis {
                        z as int
                    } else {
                        z - 1
                    };
                    lemma_remove_axis_size(s, axis as int);
                    assert(remove_axis_shape(s, axis as int)[rz] == 0);
                    lemma_shape_size_zero(remove_axis_shape(s, axis as int), rz);
                    lemma_shape_size_nonneg(s.subrange(0, axis as int));
                    lemma_shape_size_nonneg(s.subrange(axis as int + 1, s.len() as int));
                    assert(axis_outer(s, axis as int) <= 0 || axis_inner(s, axis as int) <= 0)
                        by (nonlinear_arith)
                        requires
                            axis_outer(s, axis as int) * axis_inner(s, axis as int) == 0,
                    ;
                }
            }
            let empty_v: Vec<u64> = Vec::new();
            let empty_a: Vec<u64> = Vec::new();
            assert(empty_v@ =~= Seq::<u64>::empty());
            assert(empty_a@ =~= Seq::<u64>::empty());
            Ok((empty_v, empty_a))
        },
        None => {
            let (outer, la, inner) = axis_dims(shape, axis);
            let parts = sorted_lanes_data(a, axis, outer, la, inner);
            Ok(parts)
        },
    }
}

/// Every lane along `axis` stably sorted ascending under the order of
/// [`crate::order`]; the shape is kept.  Fails with `InvalidAxis` exactly
/// when `axis` does not name a dimension; empty lanes sort to themselves.
pub fn sortf(a: &Arr, axis: usize) -> (r: Result<Arr, OpError>)
    ensures
        match r {
            Ok(out) => axis_valid(*a, axis as int) && sortf_post(*a, axis as int, out),
            Err(e) => e == OpError::InvalidAxis && !axis_valid(*a, axis as int),
        },
{
    a.check_len();
    match sorted_parts(a, axis) {
        Ok((vals, _)) => {
            let shape2 = copy_shape(a.shape());
            Ok(Arr::make(shape2, vals))
        },
        Err(e) => Err(e),
    }
}

/// Every lane along `axis` replaced by its stable sorting permutation:
/// element `j` of a lane of the result names the position whose element
/// the sorted lane has at `j`.  Failure conditions match `sortf`.
pub fn argsortf(a: &Arr, axis: usize) -> (r: Result<Arr, OpError>)
    ensures
        match r {
            Ok(out) => axis_valid(*a, axis as int) && argsortf_post(*a, axis as int, out),
            Err(e) => e == OpError::InvalidAxis && !axis_valid(*a, axis as int),
        },
{
    a.check_len();
    match sorted_parts(a, axis) {
        Ok((_, args)) => {
            let shape2 = copy_shape(a.shape());
            Ok(Arr::make(shape2, args))
        },
        Err(e) => Err(e),
    }
}

/// The round-trip law of sorting: applying the permutation that `argsortf`
/// reports to a lane of the input reproduces the lane that `sortf`
/// reports, element by element and exactly.
pub proof fn lemma_argsort_applies_to_sort(
    a: Arr,
    axis: int,
    sorted: Arr,
    args: Arr,
    o: int,
    i: int,
    j: int,
)
    requires
        axis_valid(a, axis),
        sortf_post(a, axis, sorted),
        argsortf_post(a, axis, args),
        0 <= o < axis_outer(a.shape_spec(), axis),
        0 <= i < axis_inner(a.shape_spec(), axis),
        0 <= j < a.shape_spec()[axis] as int,
    ensures
        (args.lane(axis, o, i)[j] as int) < a.lane(axis, o, i).len(),
        sorted.lane(axis, o, i)[j] == a.lane(axis, o, i)[args.lane(axis, o, i)[j] as int],
{
    lemma_stable_sort_perm_props(a.lane(axis, o, i));
}

} // verus!
