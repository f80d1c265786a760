//! Reductions along a single axis. The core primitive is `reduce_axis`.
use vstd::prelude::*;
use super::{copy_slice, RawTensor};
use crate::iter::LogicalIndices;
use vstd::arithmetic::div_mod::lemma_fundamental_div_mod_converse;
use std::rc::Rc;
use crate::shape::{
    contiguous_strides_usize, in_bounds, lemma_offset_mono, lemma_max_offset_remove, lemma_offset_bounds,
    lemma_offset_contiguous, lemma_offset_lane, lemma_ravel_bounds, lemma_ravel_split,
    lemma_ravel_unravel, lemma_size_nonneg, lemma_size_positive, lemma_suffix_size_mono,
    lemma_suffix_size_step, lemma_suffix_sizes_fit, lemma_unravel_in_bounds, lemma_unravel_len,
    lemma_contiguous_layout, lemma_offset_nonneg, max_offset, nonzero_dims, physical, ravel, size,
    suffix_size, unravel,
};
use vstd::arithmetic::mul::lemma_mul_nonnegative;

verus! {

/// The memory position where the lane of the `k`-th output element starts: the `k`-th
/// position of the layout without the reduced axis.
pub open spec fn lane_start<T>(t: &RawTensor<T>, axis: int, k: int) -> int {
    physical(t.shape_view().remove(axis), t.strides_view().remove(axis), k)
}

/// What a reduction hands its function for the lane that starts at `start`: the data from
/// there on, or, when the axis has step 0, the one element that the lane repeats.
pub open spec fn lane_arg<T>(data: Seq<T>, start: int, step: usize) -> Seq<T> {
    if step == 0 {
        seq![data[start]]
    } else {
        data.subrange(start, data.len() as int)
    }
}

/// `y` is what `f` returns for the lane of `data` that starts at `start`, with step `step`
/// and length `n`.
pub open spec fn reduces_to<T, F: Fn(&[T], usize, usize) -> T>(
    f: F,
    data: Seq<T>,
    start: int,
    step: usize,
    n: usize,
    y: T,
) -> bool {
    exists|lane: &[T]|
        #![trigger f.ensures((lane, step, n), y)]
        lane@ == lane_arg(data, start, step) && f.ensures((lane, step, n), y)
}

/// The strides of a reduction's result: those of the other axes, where each one larger
/// than the reduced axis's nonzero step is divided by the reduced dimension.
pub open spec fn reduced_strides(strides: Seq<usize>, axis: int, n: usize) -> Seq<usize> {
    Seq::new(
        (strides.len() - 1) as nat,
        |i: int|
            if strides.remove(axis)[i] > strides[axis] && strides[axis] != 0 {
                (strides.remove(axis)[i] / n) as usize
            } else {
                strides.remove(axis)[i]
            },
    )
}

/// The memory positions below `m` that start a lane of the reduced axis, in memory order:
/// every position when the step is 0, else those whose coordinate along the axis,
/// `(i / step) % n`, is 0.
pub open spec fn reduced_positions(m: int, step: usize, n: usize) -> Seq<usize>
    decreases m,
{
    if m <= 0 {
        seq![]
    } else {
        let prev = reduced_positions(m - 1, step, n);
        if step == 0 || ((m - 1) / (step as int)) % (n as int) == 0 {
            prev.push((m - 1) as usize)
        } else {
            prev
        }
    }
}

/// The reduction's own layout holds the lanes: read at logical position `k` through the
/// reduced strides, its data gives the result computed at the start of `k`'s lane.
pub open spec fn reduced_layout_holds<T>(t: &RawTensor<T>, axis: int) -> bool {
    let rs = t.shape_view().remove(axis);
    let ps = reduced_positions(t.data_view().len() as int, t.strides_view()[axis], t.shape_view()[axis]);
    let ns = reduced_strides(t.strides_view(), axis, t.shape_view()[axis]);
    forall|k: int|
        #![trigger physical(rs, ns, k)]
        0 <= k < size(rs) ==> 0 <= physical(rs, ns, k) < ps.len() && ps[physical(rs, ns, k)] as int
            == lane_start(t, axis, k)
}

/// The `c`-th lane start of an axis with step `s` and dimension `n` in a flat array:
/// `(c / s) * (s * n) + c % s`.
pub open spec fn block_position(c: int, s: int, n: int) -> int {
    (c / s) * (s * n) + c % s
}

/// How many lane starts lie below `m`.
pub open spec fn block_count(m: int, s: int, n: int) -> int {
    (m / (s * n)) * s + if m % (s * n) < s {
        m % (s * n)
    } else {
        s
    }
}

/// Below `m`, the positions whose coordinate along the axis is 0 are the block positions.
proof fn lemma_positions_blocks(m: int, s: usize, n: usize)
    requires
        0 <= m <= usize::MAX,
        s > 0,
        n > 0,
    ensures
        reduced_positions(m, s, n).len() == block_count(m, s as int, n as int),
        forall|c: int|
            0 <= c < block_count(m, s as int, n as int) ==> #[trigger] reduced_positions(m, s, n)[c] as int
                == block_position(c, s as int, n as int),
    decreases m,
{
    let si = s as int;
    let ni = n as int;
    let sn = si * ni;
    assert(sn >= si) by (nonlinear_arith)
        requires
            si > 0,
            ni >= 1,
            sn == si * ni,
    ;
    if m == 0 {
        assert(block_count(0, si, ni) == 0) by {
            vstd::arithmetic::div_mod::lemma_fundamental_div_mod_converse(0, sn, 0, 0);
            assert(0 * si == 0) by (nonlinear_arith);
        }
    } else {
        let i = m - 1;
        lemma_positions_blocks(i, s, n);
        let prev = reduced_positions(i, s, n);
        let q = i / sn;
        let r = i % sn;
        vstd::arithmetic::div_mod::lemma_fundamental_div_mod(i, sn);
        vstd::arithmetic::div_mod::lemma_mod_bound(i, sn);
        vstd::arithmetic::div_mod::lemma_div_pos_is_pos(i, sn);
        // the filter: coordinate 0 along the axis exactly when `i % (s * n) < s`
        crate::broadcasting::lemma_mod_div_coord(i, si, ni);
        assert((r / si == 0) <==> r < si) by {
            if r < si {
                vstd::arithmetic::div_mod::lemma_fundamental_div_mod_converse(r, si, 0, r);
            } else {
                vstd::arithmetic::div_mod::lemma_div_pos_is_pos(r, si);
                vstd::arithmetic::div_mod::lemma_fundamental_div_mod(r, si);
                vstd::arithmetic::div_mod::lemma_mod_bound(r, si);
                if r / si == 0 {
                    assert(si * (r / si) == 0) by (nonlinear_arith)
                        requires
                            r / si == 0,
                    ;
                }
            }
        }
        let filt = ((m - 1) / si) % ni == 0;
        assert(filt <==> r < si);
        // how the count moves from `i` to `m`
        if r < sn - 1 {
            assert(m == q * sn + (r + 1)) by (nonlinear_arith)
                requires
                    m == i + 1,
                    i == sn * q + r,
            ;
            vstd::arithmetic::div_mod::lemma_fundamental_div_mod_converse(m, sn, q, r + 1);
        } else {
            assert(m == (q + 1) * sn + 0) by (nonlinear_arith)
                requires
                    m == i + 1,
                    i == sn * q + r,
                    r == sn - 1,
            ;
            vstd::arithmetic::div_mod::lemma_fundamental_div_mod_converse(m, sn, q + 1, 0);
            assert((q + 1) * si == q * si + si) by (nonlinear_arith);
        }
        if filt {
            let c = block_count(i, si, ni);
            assert(c == q * si + r);
            vstd::arithmetic::div_mod::lemma_fundamental_div_mod_converse(c, si, q, r);
            assert(block_position(c, si, ni) == i) by {
                assert(q * sn == q * (si * ni));
                assert(i == sn * q + r);
                assert(sn * q == q * sn) by (nonlinear_arith);
            }
            assert(reduced_positions(m, s, n) == prev.push(i as usize));
            assert forall|c2: int| 0 <= c2 < block_count(m, si, ni) implies #[trigger] reduced_positions(
                m,
                s,
                n,
            )[c2] as int == block_position(c2, si, ni) by {
                if c2 < c {
                    assert(reduced_positions(m, s, n)[c2] == prev[c2]);
                }
            }
        } else {
            assert(reduced_positions(m, s, n) == prev);
        }
    }
}

/// Runs `f` on the lane that starts at `p`.
fn lane_result<T: Copy>(f: &impl Fn(&[T], usize, usize) -> T, data: &[T], p: usize, step: usize, n: usize) -> (y: T)
    requires
        p < data@.len(),
        forall|d: &[T], s: usize, n: usize| f.requires((d, s, n)),
    ensures
        reduces_to(*f, data@, p as int, step, n, y),
{
    if step == 0 {
        let mut one: Vec<T> = Vec::new();
        one.push(data[p]);
        let lane = one.as_slice();
        let y = f(lane, step, n);
        proof {
            assert(lane@ =~= lane_arg(data@, p as int, step));
        }
        y
    } else {
        let lane = &data[p..data.len()];
        let y = f(lane, step, n);
        proof {
            assert(lane@ =~= lane_arg(data@, p as int, step));
        }
        y
    }
}

impl<T: Copy> RawTensor<T> {
    /// `self` with the axis `axis` reduced by `f`. For each lane of the axis, `f` gets the
    /// data from the lane's start (or, when the axis has step 0, the one element that the
    /// lane repeats), the lane's step and its length; the lane is
    /// `data[0], data[step], ..., data[step * (n - 1)]`.
    ///
    /// The result keeps the layout of `self` without the axis: every stride larger than
    /// the axis's nonzero step is divided by the axis's dimension, and the data holds one
    /// result for every memory position whose coordinate along the axis is 0 (every
    /// position when the step is 0), in memory order. That layout holds the lanes in
    /// logical order for every row-major tensor and every axis of step 0; where it does
    /// not, the result is laid out row-major instead.
    pub fn reduce_axis(&self, axis: usize, f: impl Fn(&[T], usize, usize) -> T) -> (r: RawTensor<T>)
        requires
            axis < self.shape_view().len(),
            forall|d: &[T], s: usize, n: usize| f.requires((d, s, n)),
        ensures
            r.shape_view() == self.shape_view().remove(axis as int),
            forall|k: int|
                0 <= k < size(r.shape_view()) ==> reduces_to(
                    f,
                    self.data_view(),
                    lane_start(self, axis as int, k),
                    self.strides_view()[axis as int],
                    self.shape_view()[axis as int],
                    #[trigger] r.values()[k],
                ),
            reduced_layout_holds(self, axis as int) ==> {
                let ps = reduced_positions(
                    self.data_view().len() as int,
                    self.strides_view()[axis as int],
                    self.shape_view()[axis as int],
                );
                &&& r.strides_view() == reduced_strides(
                    self.strides_view(),
                    axis as int,
                    self.shape_view()[axis as int],
                )
                &&& r.data_view().len() == ps.len()
                &&& forall|c: int|
                    0 <= c < ps.len() ==> reduces_to(
                        f,
                        self.data_view(),
                        ps[c] as int,
                        self.strides_view()[axis as int],
                        self.shape_view()[axis as int],
                        #[trigger] r.data_view()[c],
                    )
            },
            !reduced_layout_holds(self, axis as int) ==> r.strides_view() == contiguous_strides_usize(
                r.shape_view(),
            ) && r.values() == r.data_view(),
            self.strides_view()[axis as int] == 0 ==> reduced_layout_holds(self, axis as int),
            self.strides_view() == contiguous_strides_usize(self.shape_view()) && self.data_view().len()
                == size(self.shape_view()) ==> reduced_layout_holds(self, axis as int),
    {
        self.check_inv();
        let ghost a = axis as int;
        let ghost os = self.shape_view();
        let ghost ost = self.strides_view();
        let ghost rs = os.remove(a);
        let ghost rst = ost.remove(a);
        let ghost d0 = self.data_view();
        let data = self.data();
        let len = data.len();
        let n = self.shape[axis];
        let step = self.strides[axis];
        proof {
            if step == 0 {
                law_reduce_step_zero_keeps_layout(self, a);
            }
            if ost == contiguous_strides_usize(os) && d0.len() == size(os) {
                law_reduce_row_major_keeps_layout(self, a);
            }
        }
        let shape_r = super::without(self.shape(), axis);
        let strides_r = super::without(self.strides(), axis);
        let ghost ns_spec = reduced_strides(ost, a, n);
        // the strides of the result
        let mut ns: Vec<usize> = Vec::new();
        let mut i: usize = 0;
        while i < strides_r.len()
            invariant
                strides_r@ == rst,
                rst == ost.remove(a),
                ns_spec == reduced_strides(ost, a, n),
                os.len() == ost.len(),
                0 <= a < os.len(),
                n == os[a],
                step == ost[a],
                n > 0,
                i <= strides_r@.len(),
                ns@ == ns_spec.subrange(0, i as int),
            decreases strides_r@.len() - i,
        {
            let x = strides_r[i];
            let y = if x > step && step != 0 {
                x / n
            } else {
                x
            };
            ns.push(y);
            i += 1;
            proof {
                assert(ns@ =~= ns_spec.subrange(0, i as int));
            }
        }
        proof {
            assert(ns@ =~= ns_spec);
        }
        // one result per lane start, in memory order
        let mut starts: Vec<usize> = Vec::new();
        let mut vals: Vec<T> = Vec::new();
        let mut i: usize = 0;
        while i < len
            invariant
                len == d0.len(),
                data@ == d0,
                n > 0,
                i <= len,
                starts@ == reduced_positions(i as int, step, n),
                vals@.len() == starts@.len(),
                forall|c: int| 0 <= c < starts@.len() ==> #[trigger] starts@[c] < i,
                forall|d: &[T], s: usize, n: usize| f.requires((d, s, n)),
                forall|c: int|
                    0 <= c < vals@.len() ==> reduces_to(f, d0, starts@[c] as int, step, n, #[trigger] vals@[c]),
            decreases len - i,
        {
            if step == 0 || (i / step) % n == 0 {
                let y = lane_result(&f, data, i, step, n);
                starts.push(i);
                vals.push(y);
            }
            i += 1;
        }
        let ghost ps = starts@;
        // does the layout of the result hold the lanes?
        proof {
            lemma_max_offset_remove(os, ost, a);
            assert(nonzero_dims(rs));
            lemma_size_nonneg(rs);
            let li = crate::shape::last_index(rs);
            assert forall|q: int| 0 <= q < li.len() implies 0 <= #[trigger] li[q] by {
                assert(rs[q] > 0);
            }
            assert forall|q: int| 0 <= q < li.len() implies #[trigger] ns@[q] <= rst[q] by {
                assert(rst[q] / n <= rst[q]) by (nonlinear_arith)
                    requires
                        n > 0,
                ;
            }
            lemma_offset_mono(li, ns@, rst);
            assert(strides_r@.subrange(0, shape_r@.len() as int) =~= strides_r@);
            assert(ns@.subrange(0, shape_r@.len() as int) =~= ns@);
        }
        let mut it1 = LogicalIndices::new(copy_slice(shape_r.as_slice()), copy_slice(strides_r.as_slice()));
        let mut it2 = LogicalIndices::new(copy_slice(shape_r.as_slice()), copy_slice(ns.as_slice()));
        let mut ok = true;
        let ghost total = size(rs);
        loop
            invariant_except_break
                ok,
            invariant
                it1.wf(),
                it2.wf(),
                it1.shape_view() == rs,
                it1.strides_view() == rst,
                it2.shape_view() == rs,
                it2.strides_view() == ns@,
                it1.position() == it2.position(),
                total == size(rs),
                0 <= it1.position() <= total,
                starts@ == ps,
                nonzero_dims(rs),
                rs.len() == rst.len(),
                rs.len() == ns@.len(),
                0 <= max_offset(rs, ns@) <= usize::MAX,
                0 <= max_offset(rs, rst) <= usize::MAX,
                ok ==> forall|k: int|
                    #![trigger physical(rs, ns@, k)]
                    0 <= k < it1.position() ==> 0 <= physical(rs, ns@, k) < ps.len() && ps[physical(
                        rs,
                        ns@,
                        k,
                    )] as int == physical(rs, rst, k),
            ensures
                ok ==> forall|k: int|
                    #![trigger physical(rs, ns@, k)]
                    0 <= k < total ==> 0 <= physical(rs, ns@, k) < ps.len() && ps[physical(rs, ns@, k)] as int
                        == physical(rs, rst, k),
                !ok ==> exists|k: int|
                    #![trigger physical(rs, ns@, k)]
                    0 <= k < total && !(0 <= physical(rs, ns@, k) < ps.len() && ps[physical(rs, ns@, k)] as int
                        == physical(rs, rst, k)),
            decreases total - it1.position(),
        {
            let ghost k = it1.position();
            match it1.next() {
                Some(p) => {
                    let q = match it2.next() {
                        Some(q) => q,
                        None => {
                            assert(false);
                            0
                        },
                    };
                    proof {
                        assert(k < total);
                        lemma_unravel_in_bounds(rs, k);
                        lemma_offset_bounds(unravel(rs, k), rs, rst);
                        lemma_offset_bounds(unravel(rs, k), rs, ns@);
                        assert(p as int == physical(rs, rst, k));
                        assert(q as int == physical(rs, ns@, k));
                    }
                    if !(q < starts.len() && starts[q] == p) {
                        ok = false;
                        break;
                    }
                },
                None => {
                    break;
                },
            }
        }
        proof {
            assert(ns_spec == reduced_strides(ost, a, n));
            assert(ps == reduced_positions(d0.len() as int, ost[a], os[a]));
            assert forall|k: int| 0 <= k < size(rs) implies lane_start(self, a, k) == physical(rs, rst, k) by {}
        }
        if !ok {
            return self.reduce_axis_row_major(axis, &f);
        }
        proof {
            // the last logical position is the largest one
            lemma_size_positive(rs);
            crate::shape::lemma_ravel_last(rs);
            crate::shape::lemma_unravel_ravel(rs, crate::shape::last_index(rs));
            assert(physical(rs, ns@, total - 1) == max_offset(rs, ns@));
            crate::shape::lemma_size_remove(os, a);
            assert(size(rs) <= size(os)) by (nonlinear_arith)
                requires
                    size(os) == size(rs) * (os[a] as int),
                    size(rs) > 0,
                    os[a] >= 1,
            ;
        }
        let r = RawTensor::from_parts(shape_r, ns, Rc::new(vals));
        proof {
            assert forall|k: int| 0 <= k < size(r.shape_view()) implies reduces_to(
                f,
                d0,
                lane_start(self, a, k),
                step,
                n,
                #[trigger] r.values()[k],
            ) by {
                let q = physical(rs, ns_spec, k);
                assert(r.values()[k] == r.data_view()[q]);
            }
        }
        r
    }

    /// The reduction laid out row-major: one result per lane, in logical order.
    fn reduce_axis_row_major(&self, axis: usize, f: &impl Fn(&[T], usize, usize) -> T) -> (r: RawTensor<T>)
        requires
            axis < self.shape_view().len(),
            forall|d: &[T], s: usize, n: usize| f.requires((d, s, n)),
        ensures
            r.shape_view() == self.shape_view().remove(axis as int),
            r.strides_view() == contiguous_strides_usize(r.shape_view()),
            r.values() == r.data_view(),
            r.values().len() == size(r.shape_view()),
            forall|k: int|
                0 <= k < r.values().len() ==> reduces_to(
                    *f,
                    self.data_view(),
                    lane_start(self, axis as int, k),
                    self.strides_view()[axis as int],
                    self.shape_view()[axis as int],
                    #[trigger] r.values()[k],
                ),
    {
        self.check_inv();
        let ghost a = axis as int;
        let ghost rs = self.shape_view().remove(a);
        let ghost rst = self.strides_view().remove(a);
        let data = self.data();
        let len = data.len();
        let n = self.shape[axis];
        let step = self.strides[axis];
        let mut shape: Vec<usize> = Vec::new();
        let mut strides: Vec<usize> = Vec::new();
        let mut i: usize = 0;
        while i < self.shape.len()
            invariant
                self.shape_view().len() == self.strides_view().len(),
                axis < self.shape_view().len(),
                i <= self.shape_view().len(),
                shape@ == (if i <= axis {
                    self.shape_view().subrange(0, i as int)
                } else {
                    self.shape_view().remove(axis as int).subrange(0, i - 1)
                }),
                strides@ == (if i <= axis {
                    self.strides_view().subrange(0, i as int)
                } else {
                    self.strides_view().remove(axis as int).subrange(0, i - 1)
                }),
            decreases self.shape_view().len() - i,
        {
            if i != axis {
                shape.push(self.shape[i]);
                strides.push(self.strides[i]);
            }
            i += 1;
            proof {
                if i <= axis {
                    assert(shape@ =~= self.shape_view().subrange(0, i as int));
                    assert(strides@ =~= self.strides_view().subrange(0, i as int));
                } else {
                    assert(shape@ =~= self.shape_view().remove(axis as int).subrange(0, i - 1));
                    assert(strides@ =~= self.strides_view().remove(axis as int).subrange(0, i - 1));
                }
            }
        }
        proof {
            let m = self.shape_view().len() - 1;
            assert(self.shape_view().remove(a).subrange(0, m) =~= rs);
            assert(self.strides_view().remove(a).subrange(0, m) =~= rst);
            assert(shape@ == rs);
            assert(strides@ == rst);
            lemma_max_offset_remove(self.shape_view(), self.strides_view(), a);
            assert(strides@.subrange(0, shape@.len() as int) =~= strides@);
            assert(nonzero_dims(rs));
            crate::shape::lemma_size_remove(self.shape_view(), a);
            lemma_size_positive(rs);
            assert(size(rs) <= size(self.shape_view())) by (nonlinear_arith)
                requires
                    size(self.shape_view()) == size(rs) * (self.shape_view()[a] as int),
                    size(rs) > 0,
                    self.shape_view()[a] >= 1,
            ;
        }
        let out_shape = copy_slice(shape.as_slice());
        let mut it = LogicalIndices::new(shape, strides);
        let mut out: Vec<T> = Vec::new();
        let ghost total = size(rs);
        loop
            invariant
                it.wf(),
                it.shape_view() == rs,
                it.strides_view() == rst,
                total == size(rs),
                0 <= it.position() <= total,
                out@.len() == it.position(),
                data@ == self.data_view(),
                len == data@.len(),
                nonzero_dims(rs),
                rs.len() == rst.len(),
                max_offset(rs, rst) < len,
                forall|d: &[T], s: usize, n: usize| f.requires((d, s, n)),
                forall|k: int|
                    0 <= k < out@.len() ==> reduces_to(
                        *f,
                        data@,
                        physical(rs, rst, k),
                        step,
                        n,
                        #[trigger] out@[k],
                    ),
            ensures
                out@.len() == total,
                forall|k: int|
                    0 <= k < out@.len() ==> reduces_to(
                        *f,
                        data@,
                        physical(rs, rst, k),
                        step,
                        n,
                        #[trigger] out@[k],
                    ),
            decreases total - it.position(),
        {
            let ghost k = it.position();
            match it.next() {
                Some(p) => {
                    proof {
                        assert(k < total);
                        lemma_unravel_in_bounds(rs, k);
                        lemma_offset_bounds(unravel(rs, k), rs, rst);
                        assert(p as int == physical(rs, rst, k));
                    }
                    let y = lane_result(f, data, p, step, n);
                    out.push(y);
                    proof {
                        assert(reduces_to(*f, data@, physical(rs, rst, k), step, n, out@[k]));
                    }
                },
                None => {
                    break;
                },
            }
        }
        proof {
            lemma_size_nonneg(rs);
            assert(step == self.strides_view()[a]);
            assert(n == self.shape_view()[a]);
        }
        RawTensor::from_vec(out_shape.as_slice(), out)
    }
}

/// Laid out row-major, the tensor is a flat array seen as `[outer, n, inner]` around the
/// axis `a` (`n` its dimension, `inner` the product of the dimensions after it): the
/// `k`-th lane starts at `(k / inner) * n * inner + k % inner` and steps by `inner`.
pub proof fn law_row_major_lanes<T>(t: &RawTensor<T>, a: int, k: int)
    requires
        0 <= a < t.shape_view().len(),
        nonzero_dims(t.shape_view()),
        size(t.shape_view()) <= usize::MAX,
        t.strides_view() == contiguous_strides_usize(t.shape_view()),
        0 <= k < size(t.shape_view().remove(a)),
    ensures
        t.strides_view()[a] as int == suffix_size(t.shape_view(), a + 1),
        lane_start(t, a, k) == (k / suffix_size(t.shape_view(), a + 1)) * ((t.shape_view()[a] as int)
            * suffix_size(t.shape_view(), a + 1)) + k % suffix_size(t.shape_view(), a + 1),
{
    let sh = t.shape_view();
    let cs = t.strides_view();
    let len = sh.len() as int;
    let rs = sh.remove(a);
    let n = sh[a] as int;
    let pre = sh.subrange(0, a);
    let post = sh.subrange(a + 1, len);
    let inner = suffix_size(sh, a + 1);
    lemma_suffix_sizes_fit(sh);
    lemma_suffix_size_mono(sh, a + 1, len);
    assert(inner == size(post));
    assert(nonzero_dims(rs));
    // the coordinates of the lane, and its rank split around the axis
    lemma_unravel_len(rs, k);
    lemma_unravel_in_bounds(rs, k);
    let c = unravel(rs, k);
    let cp = c.subrange(0, a);
    let cq = c.subrange(a, c.len() as int);
    assert(rs =~= pre + post);
    assert(c =~= cp + cq);
    lemma_ravel_unravel(rs, k);
    lemma_ravel_split(pre, post, cp, cq);
    let big_p = ravel(pre, cp);
    let r = ravel(post, cq);
    assert(k == big_p * inner + r);
    assert(in_bounds(cq, post)) by {
        assert forall|q: int| 0 <= q < cq.len() implies 0 <= #[trigger] cq[q] < post[q] by {
            assert(cq[q] == c[a + q]);
            assert(post[q] == rs[a + q]);
        }
    }
    lemma_ravel_bounds(post, cq);
    assert(in_bounds(cp, pre)) by {
        assert forall|q: int| 0 <= q < cp.len() implies 0 <= #[trigger] cp[q] < pre[q] by {
            assert(cp[q] == c[q]);
            assert(pre[q] == rs[q]);
        }
    }
    lemma_ravel_bounds(pre, cp);
    // the lane starts at the position of its coordinates with 0 at the axis
    lemma_offset_lane(c, cs, a, 0);
    lemma_offset_contiguous(sh, c.insert(a, 0));
    let tail = sh.subrange(a, len);
    assert(sh =~= pre + tail);
    assert(c.insert(a, 0) =~= cp + (seq![0int] + cq));
    lemma_ravel_split(pre, tail, cp, seq![0int] + cq);
    lemma_suffix_size_step(sh, a);
    assert(size(tail) == n * inner);
    assert(tail =~= seq![sh[a]] + post);
    lemma_ravel_split(seq![sh[a]], post, seq![0int], cq);
    assert(ravel(seq![sh[a]], seq![0int]) == 0) by {
        assert(seq![sh[a]].drop_last() =~= Seq::<usize>::empty());
        assert(seq![0int].drop_last() =~= Seq::<int>::empty());
        assert(ravel(Seq::<usize>::empty(), Seq::<int>::empty()) == 0);
        assert(0 * (sh[a] as int) == 0) by (nonlinear_arith);
    }
    assert(ravel(tail, seq![0int] + cq) == r) by {
        assert(0 * inner == 0) by (nonlinear_arith);
    }
    assert(lane_start(t, a, k) == big_p * (n * inner) + r);
    lemma_fundamental_div_mod_converse(k, inner, big_p, r);
}

/// With step 0 every memory position starts a lane, in order.
proof fn lemma_positions_step_zero(m: int, n: usize)
    requires
        0 <= m <= usize::MAX,
    ensures
        reduced_positions(m, 0, n).len() == m,
        forall|c: int| 0 <= c < m ==> #[trigger] reduced_positions(m, 0, n)[c] as int == c,
    decreases m,
{
    if m > 0 {
        lemma_positions_step_zero(m - 1, n);
        let prev = reduced_positions(m - 1, 0, n);
        assert(reduced_positions(m, 0, n) == prev.push((m - 1) as usize));
        assert forall|c: int| 0 <= c < m implies #[trigger] reduced_positions(m, 0, n)[c] as int == c by {
            if c < m - 1 {
                assert(reduced_positions(m, 0, n)[c] == prev[c]);
            }
        }
    }
}

/// Reducing an axis of step 0 always keeps the layout: the result has the input's
/// strides without the axis and one result per memory position.
pub proof fn law_reduce_step_zero_keeps_layout<T>(t: &RawTensor<T>, a: int)
    requires
        0 <= a < t.shape_view().len(),
        t.shape_view().len() == t.strides_view().len(),
        nonzero_dims(t.shape_view()),
        max_offset(t.shape_view(), t.strides_view()) < t.data_view().len(),
        t.data_view().len() <= usize::MAX,
        t.strides_view()[a] == 0,
    ensures
        reduced_layout_holds(t, a),
        reduced_strides(t.strides_view(), a, t.shape_view()[a]) == t.strides_view().remove(a),
{
    let sh = t.shape_view();
    let st = t.strides_view();
    let rs = sh.remove(a);
    let ns = reduced_strides(st, a, sh[a]);
    assert(ns =~= st.remove(a));
    lemma_positions_step_zero(t.data_view().len() as int, sh[a]);
    lemma_max_offset_remove(sh, st, a);
    assert(nonzero_dims(rs));
    assert forall|k: int| #![trigger physical(rs, ns, k)] 0 <= k < size(rs) implies 0 <= physical(rs, ns, k)
        < t.data_view().len() by {
        lemma_unravel_in_bounds(rs, k);
        lemma_offset_bounds(unravel(rs, k), rs, st.remove(a));
    }
}

/// Reducing a row-major tensor gives the row-major strides of the remaining shape.
proof fn lemma_reduced_strides_row_major(shape: Seq<usize>, a: int)
    requires
        nonzero_dims(shape),
        size(shape) <= usize::MAX,
        0 <= a < shape.len(),
    ensures
        reduced_strides(contiguous_strides_usize(shape), a, shape[a]) == contiguous_strides_usize(shape.remove(a)),
{
    let len = shape.len() as int;
    let cs = contiguous_strides_usize(shape);
    let rs = shape.remove(a);
    let n = shape[a] as int;
    let inner = suffix_size(shape, a + 1);
    lemma_suffix_sizes_fit(shape);
    crate::shape::lemma_size_remove(shape, a);
    assert(nonzero_dims(rs));
    lemma_size_positive(rs);
    assert(size(rs) <= size(shape)) by (nonlinear_arith)
        requires
            size(shape) == size(rs) * n,
            size(rs) > 0,
            n >= 1,
    ;
    lemma_suffix_sizes_fit(rs);
    lemma_suffix_size_mono(shape, a + 1, len);
    assert(cs[a] as int == inner);
    assert(rs.subrange(a, len - 1) =~= shape.subrange(a + 1, len));
    assert forall|i: int| 0 <= i < len - 1 implies #[trigger] reduced_strides(cs, a, shape[a])[i]
        == contiguous_strides_usize(rs)[i] by {
        let y = suffix_size(rs, i + 1);
        if i < a {
            let sub = shape.subrange(i + 1, len);
            assert(sub.remove(a - i - 1) =~= rs.subrange(i + 1, len - 1));
            crate::shape::lemma_size_remove(sub, a - i - 1);
            let x = suffix_size(shape, i + 1);
            assert(x == y * n);
            lemma_suffix_size_mono(rs, i + 1, a);
            assert(y >= inner);
            assert(cs.remove(a)[i] == cs[i]);
            if x > inner {
                assert((y * n) / n == y) by {
                    vstd::arithmetic::div_mod::lemma_fundamental_div_mod_converse(y * n, n, y, 0);
                }
            } else {
                assert(y * n >= y) by (nonlinear_arith)
                    requires
                        y >= 0,
                        n >= 1,
                ;
            }
        } else {
            assert(rs.subrange(i + 1, len - 1) =~= shape.subrange(i + 2, len));
            lemma_suffix_size_mono(shape, a + 1, i + 2);
            assert(cs.remove(a)[i] == cs[i + 1]);
        }
    }
    assert(reduced_strides(cs, a, shape[a]) =~= contiguous_strides_usize(rs));
}

/// Reducing a tensor laid out row-major over exactly its data keeps the layout: the
/// result is row-major too, its data one result per lane in order.
pub proof fn law_reduce_row_major_keeps_layout<T>(t: &RawTensor<T>, a: int)
    requires
        0 <= a < t.shape_view().len(),
        nonzero_dims(t.shape_view()),
        size(t.shape_view()) <= usize::MAX,
        t.strides_view() == contiguous_strides_usize(t.shape_view()),
        t.data_view().len() == size(t.shape_view()),
    ensures
        reduced_layout_holds(t, a),
        reduced_strides(t.strides_view(), a, t.shape_view()[a]) == contiguous_strides_usize(
            t.shape_view().remove(a),
        ),
{
    let sh = t.shape_view();
    let len = sh.len() as int;
    let rs = sh.remove(a);
    let n = sh[a];
    let inner = suffix_size(sh, a + 1);
    let m = t.data_view().len() as int;
    lemma_reduced_strides_row_major(sh, a);
    let ns = reduced_strides(t.strides_view(), a, n);
    crate::shape::lemma_size_remove(sh, a);
    assert(nonzero_dims(rs));
    lemma_size_positive(rs);
    assert(size(rs) <= size(sh)) by (nonlinear_arith)
        requires
            size(sh) == size(rs) * (n as int),
            size(rs) > 0,
            n >= 1,
    ;
    lemma_contiguous_layout(rs);
    lemma_suffix_sizes_fit(sh);
    lemma_suffix_size_mono(sh, a + 1, len);
    let s = t.strides_view()[a];
    assert(s as int == inner);
    lemma_positions_blocks(m, s, n);
    // the count of lane starts is the size of the result
    let outer = size(sh.subrange(0, a));
    assert(rs =~= sh.subrange(0, a) + sh.subrange(a + 1, len));
    crate::shape::lemma_size_concat(sh.subrange(0, a), sh.subrange(a + 1, len));
    assert(size(rs) == outer * inner);
    assert(m == outer * (inner * (n as int)) + 0) by (nonlinear_arith)
        requires
            m == size(rs) * (n as int),
            size(rs) == outer * inner,
    ;
    vstd::arithmetic::div_mod::lemma_fundamental_div_mod_converse(m, inner * (n as int), outer, 0);
    assert(block_count(m, inner, n as int) == size(rs));
    assert forall|k: int| #![trigger physical(rs, ns, k)] 0 <= k < size(rs) implies 0 <= physical(rs, ns, k)
        < reduced_positions(m, s, n).len() && reduced_positions(m, s, n)[physical(rs, ns, k)] as int
        == lane_start(t, a, k) by {
        assert(physical(rs, ns, k) == k);
        law_row_major_lanes(t, a, k);
        assert((k / inner) * ((n as int) * inner) == (k / inner) * (inner * (n as int))) by (nonlinear_arith);
    }
}

/// Place `j` of the lane of output element `k` lies inside the data, at the tensor's
/// element at the coordinates of `k` with `j` inserted at the axis.
pub(crate) proof fn lemma_lane_place<T>(t: &RawTensor<T>, axis: int, k: int, j: int)
    requires
        t.shape_view().len() == t.strides_view().len(),
        nonzero_dims(t.shape_view()),
        max_offset(t.shape_view(), t.strides_view()) < t.data_view().len(),
        0 <= axis < t.shape_view().len(),
        0 <= k < size(t.shape_view().remove(axis)),
        0 <= j < t.shape_view()[axis],
    ensures
        0 <= lane_start(t, axis, k),
        0 <= j * (t.strides_view()[axis] as int),
        lane_start(t, axis, k) + j * (t.strides_view()[axis] as int) < t.data_view().len(),
        t.data_view()[lane_start(t, axis, k) + j * (t.strides_view()[axis] as int)] == t.at(
            unravel(t.shape_view().remove(axis), k).insert(axis, j),
        ),
{
    let sh = t.shape_view();
    let st = t.strides_view();
    let rs = sh.remove(axis);
    assert(nonzero_dims(rs));
    lemma_unravel_len(rs, k);
    lemma_unravel_in_bounds(rs, k);
    lemma_offset_nonneg(unravel(rs, k), st.remove(axis));
    crate::rawtensor::structure::law_reduce_lane(t, axis, k, j);
    crate::rawtensor::accumulate::lemma_lane_coords_in_bounds(sh, axis, k, j);
    lemma_offset_bounds(unravel(rs, k).insert(axis, j), sh, st);
    lemma_mul_nonnegative(j, st[axis] as int);
}

/// A reduction hands its function the lane itself: read at `j * step` (`step` the axis's
/// step), what the function gets for output element `k` is the tensor's element at the
/// coordinates of `k` with `j` inserted at the axis, for every place `j` of the lane.
pub proof fn law_reduce_arg_is_lane<T>(t: &RawTensor<T>, axis: int, k: int, j: int)
    requires
        t.shape_view().len() == t.strides_view().len(),
        nonzero_dims(t.shape_view()),
        max_offset(t.shape_view(), t.strides_view()) < t.data_view().len(),
        0 <= axis < t.shape_view().len(),
        0 <= k < size(t.shape_view().remove(axis)),
        0 <= j < t.shape_view()[axis],
    ensures
        ({
            let arg = lane_arg(t.data_view(), lane_start(t, axis, k), t.strides_view()[axis]);
            let q = j * (t.strides_view()[axis] as int);
            &&& 0 <= q < arg.len()
            &&& arg[q] == t.at(unravel(t.shape_view().remove(axis), k).insert(axis, j))
        }),
{
    lemma_lane_place(t, axis, k, j);
    let st = t.strides_view();
    if st[axis] == 0 {
        assert(j * (st[axis] as int) == 0) by (nonlinear_arith)
            requires
                st[axis] == 0,
        ;
    }
}

/// The slice `lane` holds the lane of output element `k` along `axis`: it reaches the
/// lane's last place, and read at `j * step` (`step` the axis's step) it gives the
/// tensor's element at the coordinates of `k` with `j` inserted at the axis, for every
/// place `j` of the lane.
pub open spec fn holds_lane<T>(t: &RawTensor<T>, axis: int, k: int, lane: Seq<T>) -> bool {
    &&& (t.shape_view()[axis] - 1) * (t.strides_view()[axis] as int) < lane.len()
    &&& forall|j: int|
        #![trigger t.at(unravel(t.shape_view().remove(axis), k).insert(axis, j))]
        0 <= j < t.shape_view()[axis] ==> lane[j * (t.strides_view()[axis] as int)] == t.at(
            unravel(t.shape_view().remove(axis), k).insert(axis, j),
        )
}

/// What a reduction computes for output element `k` is what its function returns for a
/// slice that holds the lane of `k`.
pub proof fn law_reduce_reads_lane<T, F: Fn(&[T], usize, usize) -> T>(
    t: &RawTensor<T>,
    f: F,
    axis: int,
    k: int,
    y: T,
)
    requires
        t.shape_view().len() == t.strides_view().len(),
        nonzero_dims(t.shape_view()),
        max_offset(t.shape_view(), t.strides_view()) < t.data_view().len(),
        0 <= axis < t.shape_view().len(),
        0 <= k < size(t.shape_view().remove(axis)),
        reduces_to(
            f,
            t.data_view(),
            lane_start(t, axis, k),
            t.strides_view()[axis],
            t.shape_view()[axis],
            y,
        ),
    ensures
        exists|lane: &[T]|
            #![trigger f.ensures((lane, t.strides_view()[axis], t.shape_view()[axis]), y)]
            f.ensures((lane, t.strides_view()[axis], t.shape_view()[axis]), y) && holds_lane(
                t,
                axis,
                k,
                lane@,
            ),
{
    let step = t.strides_view()[axis];
    let n = t.shape_view()[axis];
    let lane = choose|lane: &[T]|
        #![trigger f.ensures((lane, step, n), y)]
        lane@ == lane_arg(t.data_view(), lane_start(t, axis, k), step) && f.ensures((lane, step, n), y);
    let ls = lane@;
    assert forall|j: int| 0 <= j < n implies ls[j * (step as int)] == #[trigger] t.at(
        unravel(t.shape_view().remove(axis), k).insert(axis, j),
    ) by {
        law_reduce_arg_is_lane(t, axis, k, j);
    }
    law_reduce_arg_is_lane(t, axis, k, n - 1);
    assert(holds_lane(t, axis, k, ls));
    assert(f.ensures((lane, step, n), y));
}

} // verus!
