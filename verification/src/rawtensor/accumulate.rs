//! In-place updates, used to accumulate gradients: elementwise with broadcasting
//! (`elementwise_op_inplace`), and lane by lane along an axis (`accumulate_lanes`).
use vstd::prelude::*;
use std::rc::Rc;
use super::{copy_slice, RawTensor};
use crate::rawtensor::structure::broadcast_layout_strides;
use crate::iter::LogicalIndices;
use crate::rawtensor::binary::broadcast_value;
use crate::rawtensor::normalizations::on_lane;
use crate::rawtensor::reductions::lane_start;
use crate::shape::{
    broadcast_of, broadcast_shape, last_index, broadcast_strides, contiguous_strides_usize, in_bounds,
    lemma_broadcast_commutes, lemma_broadcast_onto, lemma_broadcast_operand,
    lemma_max_offset_remove, lemma_offset_broadcast, lemma_offset_bounds, lemma_offset_contiguous, lemma_offset_lane, lemma_offset_nonneg,
    lemma_ravel_unravel, lemma_size_nonneg, lemma_suffix_sizes_fit, lemma_unravel_in_bounds,
    lemma_unravel_len, lemma_unravel_ravel, max_offset, nonzero_dims, offset, physical, project,
    ravel, row_major_up_to_units, strides_ordered, lemma_offset_agree, lemma_contiguous_layout, shapes_broadcastable, size, unravel,
};

verus! {

/// Step `m` of an in-place update: state `m + 1` is state `m` with the element at the
/// `m`-th position of the broadcast layout (in logical order of `out`, through `t`'s
/// broadcast strides) replaced by a value that `f` may return for that element and
/// `other`'s element at `m`.
pub open spec fn inplace_step<T, F: Fn(T, T) -> T>(
    f: F,
    states: Seq<Seq<T>>,
    shape: Seq<usize>,
    strides: Seq<usize>,
    other: &RawTensor<T>,
    out: Seq<usize>,
    m: int,
) -> bool {
    let p = physical(out, broadcast_strides(shape, strides, out), m);
    &&& states[m + 1] == states[m].update(p, states[m + 1][p])
    &&& f.ensures((states[m][p], broadcast_value(other, out, m)), states[m + 1][p])
}

/// `states` runs all the updates of `elementwise_op_inplace` from `data`, one per
/// position of the broadcast shape `out`.
pub open spec fn inplace_run<T, F: Fn(T, T) -> T>(
    f: F,
    data: Seq<T>,
    shape: Seq<usize>,
    strides: Seq<usize>,
    other: &RawTensor<T>,
    out: Seq<usize>,
    states: Seq<Seq<T>>,
) -> bool {
    &&& states.len() == size(out) + 1
    &&& states[0] == data
    &&& forall|m: int| 0 <= m < size(out) ==> #[trigger] inplace_step(f, states, shape, strides, other, out, m)
}

/// The `n` values of `data` at `start`, `start + step`, ...
pub open spec fn lane_values<T>(data: Seq<T>, start: int, step: int, n: int) -> Seq<T> {
    Seq::new(n as nat, |j: int| data[start + j * step])
}

/// `v` is what `f` computes at place `j` of a lane, handed the data of the gradient and of
/// the output from the lane's starts `g` and `o`, and the lane's current values `cur`.
pub open spec fn lane_update_at<T, F: Fn(&[T], &[T], &[T], usize, usize, usize) -> Vec<T>>(
    f: F,
    grad_data: Seq<T>,
    g: int,
    out_data: Seq<T>,
    o: int,
    cur: Seq<T>,
    grad_step: usize,
    out_step: usize,
    n: usize,
    j: int,
    v: T,
) -> bool {
    exists|gl: &[T], ol: &[T], cl: &[T], res: Vec<T>|
        #![trigger f.ensures((gl, ol, cl, grad_step, out_step, n), res)]
        gl@ == grad_data.subrange(g, grad_data.len() as int) && ol@ == out_data.subrange(
            o,
            out_data.len() as int,
        ) && cl@ == cur && f.ensures((gl, ol, cl, grad_step, out_step, n), res) && 0 <= j
            < res@.len() && res@[j] == v
}

/// The coordinates of place `j` on lane `k` of axis `a` lie inside the shape.
pub(crate) proof fn lemma_lane_coords_in_bounds(shape: Seq<usize>, a: int, k: int, j: int)
    requires
        nonzero_dims(shape),
        0 <= a < shape.len(),
        0 <= k,
        0 <= j < shape[a],
    ensures
        in_bounds(unravel(shape.remove(a), k).insert(a, j), shape),
{
    let rs = shape.remove(a);
    assert(nonzero_dims(rs));
    lemma_unravel_len(rs, k);
    lemma_unravel_in_bounds(rs, k);
    let c = unravel(rs, k).insert(a, j);
    assert forall|q: int| 0 <= q < c.len() implies 0 <= #[trigger] c[q] < shape[q] by {
        if q < a {
            assert(c[q] == unravel(rs, k)[q]);
            assert(rs[q] == shape[q]);
        } else if q > a {
            assert(c[q] == unravel(rs, k)[q - 1]);
            assert(rs[q - 1] == shape[q]);
        }
    }
}

/// Under the row-major strides, distinct places on the lanes of an axis are distinct
/// memory positions.
proof fn lemma_lanes_disjoint(shape: Seq<usize>, a: int, k1: int, j1: int, k2: int, j2: int)
    requires
        nonzero_dims(shape),
        size(shape) <= usize::MAX,
        0 <= a < shape.len(),
        0 <= k1 < size(shape.remove(a)),
        0 <= k2 < size(shape.remove(a)),
        0 <= j1 < shape[a],
        0 <= j2 < shape[a],
        k1 != k2 || j1 != j2,
    ensures
        ({
            let st = contiguous_strides_usize(shape);
            physical(shape.remove(a), st.remove(a), k1) + j1 * (st[a] as int) != physical(
                shape.remove(a),
                st.remove(a),
                k2,
            ) + j2 * (st[a] as int)
        }),
{
    let st = contiguous_strides_usize(shape);
    let rs = shape.remove(a);
    assert(nonzero_dims(rs));
    lemma_suffix_sizes_fit(shape);
    lemma_unravel_len(rs, k1);
    lemma_unravel_len(rs, k2);
    lemma_unravel_in_bounds(rs, k1);
    lemma_unravel_in_bounds(rs, k2);
    let c1 = unravel(rs, k1).insert(a, j1);
    let c2 = unravel(rs, k2).insert(a, j2);
    lemma_offset_lane(unravel(rs, k1), st, a, j1);
    lemma_offset_lane(unravel(rs, k2), st, a, j2);
    lemma_offset_contiguous(shape, c1);
    lemma_offset_contiguous(shape, c2);
    lemma_lane_coords_in_bounds(shape, a, k1, j1);
    lemma_lane_coords_in_bounds(shape, a, k2, j2);
    assert(in_bounds(c1, shape));
    assert(in_bounds(c2, shape));
    if ravel(shape, c1) == ravel(shape, c2) {
        lemma_unravel_ravel(shape, c1);
        lemma_unravel_ravel(shape, c2);
        assert(c1 == c2);
        assert(c1[a] == j1 && c2[a] == j2);
        assert(c1.remove(a) =~= unravel(rs, k1));
        assert(c2.remove(a) =~= unravel(rs, k2));
        lemma_ravel_unravel(rs, k1);
        lemma_ravel_unravel(rs, k2);
    }
}

/// Memory position `p` is place `j` on lane `k` of the axis `a` in the row-major layout
/// of `shape`.
pub open spec fn row_major_on_lane(shape: Seq<usize>, a: int, k: int, j: int, p: int) -> bool {
    let cs = contiguous_strides_usize(shape);
    &&& 0 <= k < size(shape.remove(a))
    &&& 0 <= j < shape[a]
    &&& p == physical(shape.remove(a), cs.remove(a), k) + j * (cs[a] as int)
}

/// Under strides that are row-major up to dimensions of size 1, the places on the lanes
/// are the row-major ones.
proof fn lemma_lane_position_row_major(shape: Seq<usize>, strides: Seq<usize>, a: int, k: int, j: int)
    requires
        nonzero_dims(shape),
        size(shape) <= usize::MAX,
        row_major_up_to_units(shape, strides),
        0 <= a < shape.len(),
        0 <= k < size(shape.remove(a)),
        0 <= j < shape[a],
    ensures
        ({
            let cs = contiguous_strides_usize(shape);
            physical(shape.remove(a), strides.remove(a), k) + j * (strides[a] as int) == physical(
                shape.remove(a),
                cs.remove(a),
                k,
            ) + j * (cs[a] as int)
        }),
{
    let cs = contiguous_strides_usize(shape);
    let rs = shape.remove(a);
    lemma_unravel_len(rs, k);
    lemma_lane_coords_in_bounds(shape, a, k, j);
    let c = unravel(rs, k).insert(a, j);
    lemma_offset_lane(unravel(rs, k), strides, a, j);
    lemma_offset_lane(unravel(rs, k), cs, a, j);
    assert forall|i: int| 0 <= i < c.len() implies #[trigger] c[i] == 0 || strides[i] == cs[i] by {
        if shape[i] == 1 {
            assert(0 <= c[i] < shape[i]);
        }
    }
    lemma_offset_agree(c, strides, cs);
}

/// Strides that are row-major up to dimensions of size 1 reach what the row-major ones
/// reach.
proof fn lemma_row_major_bounds(shape: Seq<usize>, strides: Seq<usize>)
    requires
        nonzero_dims(shape),
        size(shape) <= usize::MAX,
        row_major_up_to_units(shape, strides),
    ensures
        max_offset(shape, strides) == max_offset(shape, contiguous_strides_usize(shape)),
{
    let li = crate::shape::last_index(shape);
    assert forall|i: int| 0 <= i < li.len() implies #[trigger] li[i] == 0 || strides[i]
        == contiguous_strides_usize(shape)[i] by {}
    lemma_offset_agree(li, strides, contiguous_strides_usize(shape));
}

/// Runs the updates of `elementwise_op_inplace` on data held outright: `data` is laid out
/// by `shape` and `strides`, both layouts are broadcast to their common shape and, in its
/// logical order, each element of `data` is replaced by `f(element, other's element)`.
/// Returns the updated data.
pub fn apply_inplace_updates<T: Copy, F: Fn(T, T) -> T>(
    data: Vec<T>,
    shape: &[usize],
    strides: &[usize],
    other: &RawTensor<T>,
    f: F,
) -> (r: Vec<T>)
    requires
        shape@.len() == strides@.len(),
        nonzero_dims(shape@),
        max_offset(shape@, strides@) < data@.len(),
        shapes_broadcastable(shape@, other.shape_view()),
        size(broadcast_of(shape@, other.shape_view())) <= usize::MAX,
        forall|x: T, y: T| f.requires((x, y)),
    ensures
        r@.len() == data@.len(),
        exists|states: Seq<Seq<T>>|
            #[trigger] inplace_run(
                f,
                data@,
                shape@,
                strides@,
                other,
                broadcast_of(shape@, other.shape_view()),
                states,
            ) && r@ == states.last(),
{
    other.check_inv();
    let mut data = data;
    let ghost s1 = shape@;
    let ghost st1 = strides@;
    let ghost d0 = data@;
    let ghost s2 = other.shape_view();
    let out_shape = match broadcast_shape(shape, other.shape()) {
        Some(s) => s,
        None => {
            assert(false);
            Vec::new()
        },
    };
    let ghost out = out_shape@;
    proof {
        lemma_broadcast_operand(s1, s2);
        lemma_broadcast_commutes(s1, s2);
        lemma_broadcast_operand(s2, s1);
        lemma_broadcast_onto(s1, out);
        lemma_size_nonneg(out);
    }
    // the positions of `data` broadcast to `out`, in logical order
    let bs_vec = broadcast_layout_strides(shape, strides, out_shape.as_slice());
    let ghost bs = bs_vec@;
    proof {
        // the broadcast layout reaches the same last position
        lemma_offset_broadcast(s1, st1, out, last_index(out));
        assert(project(s1, out, last_index(out)) =~= last_index(s1));
        assert(max_offset(out, bs) < d0.len());
        assert(bs_vec@.subrange(0, out.len() as int) =~= bs_vec@);
    }
    let len = data.len();
    let mut it = LogicalIndices::new(copy_slice(out_shape.as_slice()), bs_vec);
    let oe = other.expand(out_shape.as_slice());
    let ov = oe.iter();
    let ghost total = size(out);
    proof {
        assert forall|k: int| 0 <= k < total implies ov@[k] == broadcast_value(other, out, k) by {
            lemma_unravel_in_bounds(out, k);
            lemma_unravel_len(out, k);
            let idx = unravel(out, k);
            assert(oe.at(idx) == other.at(project(s2, out, idx)));
        }
    }
    let mut kk: usize = 0;
    let ghost mut states: Seq<Seq<T>> = seq![d0];
    loop
        invariant
            it.wf(),
            it.shape_view() == out,
            it.strides_view() == bs,
            bs == broadcast_strides(s1, st1, out),
            total == size(out),
            total <= usize::MAX,
            0 <= it.position() <= total,
            ov@.len() == total,
            forall|k: int| 0 <= k < total ==> ov@[k] == broadcast_value(other, out, k),
            nonzero_dims(out),
            out.len() == bs.len(),
            max_offset(out, bs) < len,
            len == d0.len(),
            forall|x: T, y: T| f.requires((x, y)),
            kk as int == it.position(),
            data@.len() == len,
            states.len() == kk + 1,
            states[0] == d0,
            states.last() == data@,
            forall|m: int| 0 <= m < kk ==> #[trigger] inplace_step(f, states, s1, st1, other, out, m),
        ensures
            data@.len() == len,
            states.len() == total + 1,
            states[0] == d0,
            states.last() == data@,
            forall|m: int| 0 <= m < total ==> #[trigger] inplace_step(f, states, s1, st1, other, out, m),
        decreases total - it.position(),
    {
        let ghost k = it.position();
        match it.next() {
            Some(p) => {
                proof {
                    assert(k < total);
                    lemma_unravel_in_bounds(out, k);
                    lemma_offset_bounds(unravel(out, k), out, bs);
                    assert(p as int == physical(out, bs, k));
                }
                let cur = data[p];
                let y = f(cur, ov[kk]);
                data.set(p, y);
                kk = kk + 1;
                proof {
                    let old_states = states;
                    states = states.push(data@);
                    assert forall|m: int| 0 <= m < kk implies #[trigger] inplace_step(
                        f,
                        states,
                        s1,
                        st1,
                        other,
                        out,
                        m,
                    ) by {
                        if m < k {
                            assert(inplace_step(f, old_states, s1, st1, other, out, m));
                            assert(states[m] == old_states[m]);
                            assert(states[m + 1] == old_states[m + 1]);
                        } else {
                            assert(states[m] == old_states.last());
                            assert(states[m + 1] == data@);
                        }
                    }
                }
            },
            None => {
                proof {
                    assert(k == total);
                }
                break;
            },
        }
    }
    proof {
        assert(inplace_run(f, d0, s1, st1, other, out, states));
    }
    data
}

/// Runs the lane updates of `accumulate_lanes` on data held outright, laid out as `grad`
/// is: for each lane of the axis `axis`, in the logical order of the other axes, `f` gets
/// the data of `grad` and of `out` from the lane's starts in them, the lane's current
/// values, the steps of the axis in `grad` and in `out`, and the lane's length; it returns
/// the lane's new values, written at the lane's places. Returns the updated data.
pub fn update_lanes<T: Copy, F: Fn(&[T], &[T], &[T], usize, usize, usize) -> Vec<T>>(
    data: Vec<T>,
    grad: &RawTensor<T>,
    out: &RawTensor<T>,
    axis: usize,
    f: F,
) -> (r: Vec<T>)
    requires
        axis < grad.shape_view().len(),
        out.shape_view() == grad.shape_view(),
        strides_ordered(grad.strides_view()),
        row_major_up_to_units(grad.shape_view(), grad.strides_view()),
        max_offset(grad.shape_view(), grad.strides_view()) < data@.len(),
        forall|g: &[T], o: &[T], c: &[T], gs: usize, os: usize, n: usize|
            f.requires((g, o, c, gs, os, n)),
        forall|g: &[T], o: &[T], c: &[T], gs: usize, os: usize, n: usize, r: Vec<T>|
            f.ensures((g, o, c, gs, os, n), r) ==> r@.len() == n,
    ensures
        r@.len() == data@.len(),
        forall|p: int|
            0 <= p < data@.len() && (forall|k: int, j: int| !on_lane(grad, axis as int, k, j, p))
                ==> #[trigger] r@[p] == data@[p],
        forall|k: int, j: int, p: int|
            #[trigger] on_lane(grad, axis as int, k, j, p) ==> lane_update_at(
                f,
                grad.data_view(),
                lane_start(grad, axis as int, k),
                out.data_view(),
                lane_start(out, axis as int, k),
                lane_values(
                    data@,
                    lane_start(grad, axis as int, k),
                    grad.strides_view()[axis as int] as int,
                    grad.shape_view()[axis as int] as int,
                ),
                grad.strides_view()[axis as int],
                out.strides_view()[axis as int],
                grad.shape_view()[axis as int],
                j,
                r@[p],
            ),
{
    grad.check_inv();
    out.check_inv();
    let ghost a = axis as int;
    let ghost os = grad.shape_view();
    let ghost gst = grad.strides_view();
    let ghost ostr = out.strides_view();
    let ghost rs = os.remove(a);
    let ghost orst = ostr.remove(a);
    let ghost d0 = data@;
    proof {
        lemma_suffix_sizes_fit(os);
    }
    let cs_vec = crate::shape::strides_contiguous(grad.shape());
    let ghost cs = cs_vec@;
    let ghost crs = cs.remove(a);
    let n = grad.shape()[axis];
    let step = cs_vec[axis];
    let gstep = grad.strides[axis];
    let ostep = out.strides[axis];
    let gdata = grad.data();
    let odata = out.data();
    let glen = gdata.len();
    let olen = odata.len();
    let shape_r = super::without(grad.shape(), axis);
    let strides_r = super::without(cs_vec.as_slice(), axis);
    let shape_o = super::without(out.shape(), axis);
    let strides_o = super::without(out.strides(), axis);
    proof {
        assert(cs == contiguous_strides_usize(os));
        lemma_contiguous_layout(os);
        lemma_max_offset_remove(os, cs, a);
        lemma_max_offset_remove(os, ostr, a);
        // `grad`'s layout reaches exactly the row-major positions
        lemma_row_major_bounds(os, gst);
        assert(strides_r@.subrange(0, shape_r@.len() as int) =~= strides_r@);
        assert(strides_o@.subrange(0, shape_o@.len() as int) =~= strides_o@);
        assert(nonzero_dims(rs));
        lemma_size_nonneg(rs);
    }
    let mut it = LogicalIndices::new(shape_r, strides_r);
    let mut it2 = LogicalIndices::new(shape_o, strides_o);
    let mut new_data = data;
    let len = new_data.len();
    let ghost total = size(rs);
    loop
        invariant
            it.wf(),
            it2.wf(),
            it.shape_view() == rs,
            it.strides_view() == crs,
            it2.shape_view() == rs,
            it2.strides_view() == orst,
            it.position() == it2.position(),
            total == size(rs),
            0 <= it.position() <= total,
            grad.shape_view() == os,
            out.shape_view() == os,
            out.strides_view() == ostr,
            rs == os.remove(a),
            crs == cs.remove(a),
            orst == ostr.remove(a),
            a == axis as int,
            os.len() == cs.len(),
            os.len() == ostr.len(),
            0 <= a < os.len(),
            nonzero_dims(os),
            nonzero_dims(rs),
            size(os) <= usize::MAX,
            cs == contiguous_strides_usize(os),
            max_offset(os, cs) < len,
            max_offset(os, cs) < glen,
            max_offset(os, ostr) < olen,
            0 <= max_offset(rs, crs) <= max_offset(os, cs),
            0 <= max_offset(rs, orst) <= max_offset(os, ostr),
            gdata@ == grad.data_view(),
            odata@ == out.data_view(),
            glen == gdata@.len(),
            olen == odata@.len(),
            len == d0.len(),
            n == os[a],
            step == cs[a],
            ostep == ostr[a],
            gstep == gst[a],
            new_data@.len() == len,
            forall|g: &[T], o: &[T], c: &[T], gs: usize, os: usize, n: usize|
                f.requires((g, o, c, gs, os, n)),
            forall|g: &[T], o: &[T], c: &[T], gs: usize, os: usize, n: usize, r: Vec<T>|
                f.ensures((g, o, c, gs, os, n), r) ==> r@.len() == n,
            forall|p: int|
                0 <= p < len && (forall|k: int, j: int|
                    0 <= k < it.position() ==> !row_major_on_lane(os, a, k, j, p)) ==> #[trigger] new_data@[p]
                    == d0[p],
            forall|k: int, j: int, p: int|
                0 <= k < it.position() && #[trigger] row_major_on_lane(os, a, k, j, p) ==> lane_update_at(
                    f,
                    gdata@,
                    physical(rs, crs, k),
                    odata@,
                    lane_start(out, a, k),
                    lane_values(d0, physical(rs, crs, k), step as int, n as int),
                    gstep,
                    ostep,
                    n,
                    j,
                    new_data@[p],
                ),
        ensures
            new_data@.len() == len,
            forall|p: int|
                0 <= p < len && (forall|k: int, j: int| !row_major_on_lane(os, a, k, j, p))
                    ==> #[trigger] new_data@[p] == d0[p],
            forall|k: int, j: int, p: int|
                #[trigger] row_major_on_lane(os, a, k, j, p) ==> lane_update_at(
                    f,
                    gdata@,
                    physical(rs, crs, k),
                    odata@,
                    lane_start(out, a, k),
                    lane_values(d0, physical(rs, crs, k), step as int, n as int),
                    gstep,
                    ostep,
                    n,
                    j,
                    new_data@[p],
                ),
        decreases total - it.position(),
    {
        let ghost k = it.position();
        match it.next() {
            Some(g) => {
                let o = match it2.next() {
                    Some(o) => o,
                    None => {
                        assert(false);
                        0
                    },
                };
                proof {
                    assert(k < total);
                    lemma_unravel_in_bounds(rs, k);
                    lemma_offset_bounds(unravel(rs, k), rs, crs);
                    lemma_offset_bounds(unravel(rs, k), rs, orst);
                    assert(g as int == physical(rs, crs, k));
                    assert(o as int == lane_start(out, a, k));
                }
                // the lane's current values, untouched by the lanes before it
                let mut cur: Vec<T> = Vec::new();
                let mut j: usize = 0;
                while j < n
                    invariant
                        0 <= j <= n,
                        g as int == physical(rs, crs, k),
                        0 <= k < total,
                        total == size(rs),
                        it.position() == k + 1,
                        rs == os.remove(a),
                        crs == cs.remove(a),
                        a == axis as int,
                        os.len() == cs.len(),
                        0 <= a < os.len(),
                        nonzero_dims(os),
                        size(os) <= usize::MAX,
                        cs == contiguous_strides_usize(os),
                        max_offset(os, cs) < len,
                        n == os[a],
                        step == cs[a],
                        new_data@.len() == len,
                        len == d0.len(),
                        cur@ == lane_values(d0, g as int, step as int, j as int),
                        forall|p: int|
                            0 <= p < len && (forall|k2: int, j2: int|
                                0 <= k2 < k ==> !row_major_on_lane(os, a, k2, j2, p)) ==> #[trigger] new_data@[p]
                                == d0[p],
                    decreases n - j,
                {
                    proof {
                        lemma_unravel_len(rs, k);
                        lemma_lane_coords_in_bounds(os, a, k, j as int);
                        lemma_offset_lane(unravel(rs, k), cs, a, j as int);
                        lemma_offset_bounds(unravel(rs, k).insert(a, j as int), os, cs);
                        let p = g + j * step;
                        assert forall|k2: int, j2: int| 0 <= k2 < k implies !row_major_on_lane(os, a, k2, j2, p) by {
                            if row_major_on_lane(os, a, k2, j2, p) {
                                lemma_lanes_disjoint(os, a, k2, j2, k, j as int);
                            }
                        }
                        assert(new_data@[p] == d0[p]);
                    }
                    cur.push(new_data[g + j * step]);
                    j += 1;
                    proof {
                        assert(cur@ =~= lane_values(d0, g as int, step as int, j as int));
                    }
                }
                let gl = &gdata[g..glen];
                let ol = &odata[o..olen];
                let cl = cur.as_slice();
                let vals = f(gl, ol, cl, gstep, ostep, n);
                let mut j: usize = 0;
                while j < n
                    invariant
                        0 <= j <= n,
                        vals@.len() == n,
                        f.ensures((gl, ol, cl, gstep, ostep, n), vals),
                        gl@ == gdata@.subrange(g as int, glen as int),
                        ol@ == odata@.subrange(o as int, olen as int),
                        cl@ == lane_values(d0, g as int, step as int, n as int),
                        g as int == physical(rs, crs, k),
                        o as int == lane_start(out, a, k),
                        0 <= k < total,
                        total == size(rs),
                        it.position() == k + 1,
                        rs == os.remove(a),
                        crs == cs.remove(a),
                        a == axis as int,
                        os.len() == cs.len(),
                        0 <= a < os.len(),
                        nonzero_dims(os),
                        size(os) <= usize::MAX,
                        cs == contiguous_strides_usize(os),
                        max_offset(os, cs) < len,
                        gdata@.len() == glen,
                        odata@.len() == olen,
                        n == os[a],
                        step == cs[a],
                        new_data@.len() == len,
                        len == d0.len(),
                        forall|p: int|
                            0 <= p < len && (forall|k2: int, j2: int|
                                (0 <= k2 < k || (k2 == k && 0 <= j2 < j)) ==> !row_major_on_lane(os, a, k2, j2, p))
                                ==> #[trigger] new_data@[p] == d0[p],
                        forall|k2: int, j2: int, p: int|
                            (0 <= k2 < k || (k2 == k && 0 <= j2 < j)) && #[trigger] row_major_on_lane(os, a, k2, j2, p)
                                ==> lane_update_at(
                                f,
                                gdata@,
                                physical(rs, crs, k2),
                                odata@,
                                lane_start(out, a, k2),
                                lane_values(d0, physical(rs, crs, k2), step as int, n as int),
                                gstep,
                                ostep,
                                n,
                                j2,
                                new_data@[p],
                            ),
                    decreases n - j,
                {
                    proof {
                        lemma_unravel_len(rs, k);
                        lemma_lane_coords_in_bounds(os, a, k, j as int);
                        lemma_offset_lane(unravel(rs, k), cs, a, j as int);
                        lemma_offset_bounds(unravel(rs, k).insert(a, j as int), os, cs);
                    }
                    let ghost before = new_data@;
                    let pos: usize = g + j * step;
                    new_data.set(pos, vals[j]);
                    proof {
                        assert(row_major_on_lane(os, a, k, j as int, pos as int));
                        assert(lane_update_at(
                            f,
                            gdata@,
                            physical(rs, crs, k),
                            odata@,
                            lane_start(out, a, k),
                            lane_values(d0, physical(rs, crs, k), step as int, n as int),
                            gstep,
                            ostep,
                            n,
                            j as int,
                            vals@[j as int],
                        ));
                        assert forall|k2: int, j2: int, p: int|
                            (0 <= k2 < k || (k2 == k && 0 <= j2 < j + 1)) && #[trigger] row_major_on_lane(os, a, k2, j2, p)
                                implies lane_update_at(
                                f,
                                gdata@,
                                physical(rs, crs, k2),
                                odata@,
                                lane_start(out, a, k2),
                                lane_values(d0, physical(rs, crs, k2), step as int, n as int),
                                gstep,
                                ostep,
                                n,
                                j2,
                                new_data@[p],
                            ) by {
                            if k2 != k || j2 != j {
                                lemma_lanes_disjoint(os, a, k2, j2, k, j as int);
                                lemma_unravel_len(rs, k2);
                                lemma_lane_coords_in_bounds(os, a, k2, j2);
                                lemma_offset_lane(unravel(rs, k2), cs, a, j2);
                                lemma_offset_bounds(unravel(rs, k2).insert(a, j2), os, cs);
                                assert(0 <= p < len);
                                assert(new_data@[p] == before[p]);
                            }
                        }
                        assert forall|p: int|
                            0 <= p < len && (forall|k2: int, j2: int|
                                (0 <= k2 < k || (k2 == k && 0 <= j2 < j + 1)) ==> !row_major_on_lane(os, a, k2, j2, p))
                                implies #[trigger] new_data@[p] == d0[p] by {
                            assert(!row_major_on_lane(os, a, k, j as int, p));
                            assert(p != pos as int);
                            assert(new_data@[p] == before[p]);
                        }
                    }
                    j += 1;
                }
            },
            None => {
                proof {
                    assert forall|p: int|
                        0 <= p < len && (forall|k: int, j: int| !row_major_on_lane(os, a, k, j, p))
                            implies #[trigger] new_data@[p] == d0[p] by {}
                }
                break;
            },
        }
    }
    proof {
        // `grad`'s lanes are the row-major ones
        assert forall|k: int, j: int, p: int| #[trigger] on_lane(grad, a, k, j, p) implies row_major_on_lane(
            os,
            a,
            k,
            j,
            p,
        ) && physical(rs, crs, k) == lane_start(grad, a, k) by {
            lemma_lane_position_row_major(os, gst, a, k, j);
            lemma_lane_position_row_major(os, gst, a, k, 0);
        }
        assert forall|p: int|
            0 <= p < len && (forall|k: int, j: int| !on_lane(grad, a, k, j, p)) implies #[trigger] new_data@[p]
            == d0[p] by {
            assert forall|k: int, j: int| !row_major_on_lane(os, a, k, j, p) by {
                if row_major_on_lane(os, a, k, j, p) {
                    lemma_lane_position_row_major(os, gst, a, k, j);
                    assert(on_lane(grad, a, k, j, p));
                }
            }
        }
        assert forall|k: int, j: int, p: int| #[trigger] on_lane(grad, a, k, j, p) implies lane_update_at(
            f,
            gdata@,
            lane_start(grad, a, k),
            odata@,
            lane_start(out, a, k),
            lane_values(d0, lane_start(grad, a, k), gstep as int, n as int),
            gstep,
            ostep,
            n,
            j,
            new_data@[p],
        ) by {
            assert(row_major_on_lane(os, a, k, j, p));
            assert forall|q: int| 0 <= q < n implies #[trigger] lane_values(
                d0,
                lane_start(grad, a, k),
                gstep as int,
                n as int,
            )[q] == lane_values(d0, physical(rs, crs, k), step as int, n as int)[q] by {
                lemma_lane_position_row_major(os, gst, a, k, q);
            }
            assert(lane_values(d0, lane_start(grad, a, k), gstep as int, n as int) =~= lane_values(
                d0,
                physical(rs, crs, k),
                step as int,
                n as int,
            ));
        }
    }
    new_data
}

impl<T: Copy> RawTensor<T> {
    /// Updates the data in place: both tensors are broadcast to their common shape and,
    /// in its logical order, each element of `self` is replaced by `f(element, other's
    /// element)`. Where `self` repeats an element (a broadcast dimension), the updates to
    /// it follow one another, so a sum accumulates. The update needs `self` to be the only
    /// holder of its data: when another tensor shares it, nothing changes and the result
    /// is `false`; otherwise the data is taken out and `apply_inplace_updates` runs on it.
    pub fn elementwise_op_inplace(&mut self, other: &RawTensor<T>, f: impl Fn(T, T) -> T) -> (r: bool)
        requires
            shapes_broadcastable(old(self).shape_view(), other.shape_view()),
            size(broadcast_of(old(self).shape_view(), other.shape_view())) <= usize::MAX,
            forall|x: T, y: T| f.requires((x, y)),
        ensures
            final(self).shape_view() == old(self).shape_view(),
            final(self).strides_view() == old(self).strides_view(),
            !r ==> final(self).data_view() == old(self).data_view(),
            r ==> exists|states: Seq<Seq<T>>|
                #[trigger] inplace_run(
                    f,
                    old(self).data_view(),
                    old(self).shape_view(),
                    old(self).strides_view(),
                    other,
                    broadcast_of(old(self).shape_view(), other.shape_view()),
                    states,
                ) && final(self).data_view() == states.last(),
    {
        self.check_inv();
        // take the data out of `self`, when it is the only holder
        proof {
            lemma_offset_nonneg(crate::shape::last_index(self.shape_view()), self.strides_view());
        }
        let first = self.data[0];
        let mut held = RawTensor::from_scalar(first);
        std::mem::swap(self, &mut held);
        let (shape, strides, data) = match held.into_unique_parts() {
            Ok(parts) => parts,
            Err(t) => {
                *self = t;
                return false;
            },
        };
        let data = apply_inplace_updates(data, shape.as_slice(), strides.as_slice(), other, f);
        *self = RawTensor::from_parts(shape, strides, Rc::new(data));
        true
    }

    /// Updates every lane of the axis `axis` in place, as the gradient of a normalization
    /// along that axis is accumulated. For each lane, in the logical order of the other
    /// axes, `f` gets the data of `grad` and of `out` from the lane's starts in them, the
    /// lane's current values in `self`, the steps of the axis in `grad` and in `out`, and
    /// the lane's length; it returns the lane's new values, written at the lane's places in
    /// `grad`'s layout.
    ///
    /// `self` and `grad` have the shape of `out`, and their strides are ordered (positive
    /// and non-increasing). Of the ordered layouts, those taken here are the row-major
    /// ones up to the strides of dimensions of size 1, where the lanes do not overlap and
    /// fill the data exactly; ordered layouts whose lanes overlap or leave gaps (which no
    /// operation of this library builds) are left out.
    ///
    /// The update needs `self` to be the only holder of its data: when another tensor
    /// shares it, nothing changes and the result is `false`; otherwise the data is taken
    /// out and `update_lanes` runs on it.
    pub fn accumulate_lanes(
        &mut self,
        grad: &RawTensor<T>,
        out: &RawTensor<T>,
        axis: usize,
        f: impl Fn(&[T], &[T], &[T], usize, usize, usize) -> Vec<T>,
    ) -> (r: bool)
        requires
            axis < old(self).shape_view().len(),
            grad.shape_view() == old(self).shape_view(),
            out.shape_view() == old(self).shape_view(),
            strides_ordered(old(self).strides_view()),
            strides_ordered(grad.strides_view()),
            row_major_up_to_units(old(self).shape_view(), old(self).strides_view()),
            row_major_up_to_units(old(self).shape_view(), grad.strides_view()),
            forall|g: &[T], o: &[T], c: &[T], gs: usize, os: usize, n: usize|
                f.requires((g, o, c, gs, os, n)),
            forall|g: &[T], o: &[T], c: &[T], gs: usize, os: usize, n: usize, r: Vec<T>|
                f.ensures((g, o, c, gs, os, n), r) ==> r@.len() == n,
        ensures
            final(self).shape_view() == old(self).shape_view(),
            final(self).strides_view() == old(self).strides_view(),
            !r ==> final(self).data_view() == old(self).data_view(),
            final(self).data_view().len() == old(self).data_view().len(),
            r ==> forall|p: int|
                0 <= p < old(self).data_view().len() && (forall|k: int, j: int|
                    !on_lane(grad, axis as int, k, j, p)) ==> #[trigger] final(self).data_view()[p]
                    == old(self).data_view()[p],
            r ==> forall|k: int, j: int, p: int|
                #[trigger] on_lane(grad, axis as int, k, j, p) ==> lane_update_at(
                    f,
                    grad.data_view(),
                    lane_start(grad, axis as int, k),
                    out.data_view(),
                    lane_start(out, axis as int, k),
                    lane_values(
                        old(self).data_view(),
                        lane_start(grad, axis as int, k),
                        grad.strides_view()[axis as int] as int,
                        old(self).shape_view()[axis as int] as int,
                    ),
                    grad.strides_view()[axis as int],
                    out.strides_view()[axis as int],
                    old(self).shape_view()[axis as int],
                    j,
                    final(self).data_view()[p],
                ),
    {
        self.check_inv();
        proof {
            // `self`'s layout and `grad`'s reach the same row-major positions
            lemma_row_major_bounds(self.shape_view(), self.strides_view());
            lemma_row_major_bounds(self.shape_view(), grad.strides_view());
            lemma_offset_nonneg(crate::shape::last_index(self.shape_view()), self.strides_view());
        }
        // take the data out of `self`, when it is the only holder
        let first = self.data[0];
        let mut held = RawTensor::from_scalar(first);
        std::mem::swap(self, &mut held);
        let (shape, strides, data) = match held.into_unique_parts() {
            Ok(parts) => parts,
            Err(t) => {
                *self = t;
                return false;
            },
        };
        let new_data = update_lanes(data, grad, out, axis, f);
        *self = RawTensor::from_parts(shape, strides, Rc::new(new_data));
        true
    }
}

} // verus!
