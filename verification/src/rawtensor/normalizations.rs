//! Normalizations along a single axis: every lane of the axis is replaced by what a
//! function computes from it. The core primitive is `normalize_axis`.
use vstd::prelude::*;
use std::rc::Rc;
use super::{copy_slice, RawTensor};
use crate::iter::LogicalIndices;
use crate::rawtensor::reductions::{holds_lane, lane_start, lemma_lane_place};
use crate::shape::{
    in_bounds, lemma_max_offset_remove, lemma_offset_bounds, lemma_offset_lane, lemma_size_nonneg,
    lemma_unravel_in_bounds, lemma_unravel_len, max_offset, nonzero_dims, offset, physical, size,
    unravel,
};

verus! {

/// `v` is what `f` computes at place `j` of the lane of `data` that starts at `start`
/// (with step `step` and length `n`).
pub open spec fn normalized_at<T, F: Fn(&[T], usize, usize) -> Vec<T>>(
    f: F,
    data: Seq<T>,
    start: int,
    step: usize,
    n: usize,
    j: int,
    v: T,
) -> bool {
    exists|lane: &[T], out: Vec<T>|
        #![trigger f.ensures((lane, step, n), out)]
        lane@ == data.subrange(start, data.len() as int) && f.ensures((lane, step, n), out) && 0
            <= j < out@.len() && out@[j] == v
}

/// Memory position `p` lies at place `j` of the lane of output element `k`.
pub open spec fn on_lane<T>(t: &RawTensor<T>, axis: int, k: int, j: int, p: int) -> bool {
    &&& 0 <= k < size(t.shape_view().remove(axis))
    &&& 0 <= j < t.shape_view()[axis]
    &&& p == lane_start(t, axis, k) + j * (t.strides_view()[axis] as int)
}

impl<T: Copy> RawTensor<T> {
    /// A new tensor with the same shape and strides, where every lane of the axis `axis`
    /// is replaced by the values `f` computes from it. `f` gets the data from the start of
    /// the lane, the lane's step and its length, and returns the lane's new values.
    /// Memory positions on no lane keep their value; where lanes share a position (a step
    /// of 0 along another axis), the last lane in logical order, at its last place there,
    /// gives the value.
    pub fn normalize_axis(&self, axis: usize, f: impl Fn(&[T], usize, usize) -> Vec<T>) -> (r: RawTensor<T>)
        requires
            axis < self.shape_view().len(),
            forall|d: &[T], s: usize, n: usize| f.requires((d, s, n)),
            forall|d: &[T], s: usize, n: usize, out: Vec<T>|
                f.ensures((d, s, n), out) ==> out@.len() == n,
        ensures
            r.shape_view() == self.shape_view(),
            r.strides_view() == self.strides_view(),
            r.data_view().len() == self.data_view().len(),
            forall|p: int|
                0 <= p < self.data_view().len() ==> {
                    ||| (forall|k: int, j: int| !on_lane(self, axis as int, k, j, p)) && #[trigger] r.data_view()[p]
                        == self.data_view()[p]
                    ||| exists|k: int, j: int|
                        on_lane(self, axis as int, k, j, p) && normalized_at(
                            f,
                            self.data_view(),
                            lane_start(self, axis as int, k),
                            self.strides_view()[axis as int],
                            self.shape_view()[axis as int],
                            j,
                            r.data_view()[p],
                        ) && forall|k2: int, j2: int|
                            #[trigger] on_lane(self, axis as int, k2, j2, p) ==> k2 < k || (k2 == k && j2 <= j)
                },
    {
        self.check_inv();
        let ghost a = axis as int;
        let ghost os = self.shape_view();
        let ghost ost = self.strides_view();
        let ghost rs = os.remove(a);
        let ghost rst = ost.remove(a);
        let data = self.data();
        let len = data.len();
        let n = self.shape[axis];
        let step = self.strides[axis];
        let mut shape: Vec<usize> = Vec::new();
        let mut strides: Vec<usize> = Vec::new();
        let mut i: usize = 0;
        while i < self.shape.len()
            invariant
                os == self.shape_view(),
                ost == self.strides_view(),
                os.len() == ost.len(),
                axis < os.len(),
                i <= os.len(),
                shape@ == (if i <= axis {
                    os.subrange(0, i as int)
                } else {
                    os.remove(axis as int).subrange(0, i - 1)
                }),
                strides@ == (if i <= axis {
                    ost.subrange(0, i as int)
                } else {
                    ost.remove(axis as int).subrange(0, i - 1)
                }),
            decreases os.len() - i,
        {
            if i != axis {
                shape.push(self.shape[i]);
                strides.push(self.strides[i]);
            }
            i += 1;
            proof {
                if i <= axis {
                    assert(shape@ =~= os.subrange(0, i as int));
                    assert(strides@ =~= ost.subrange(0, i as int));
                } else {
                    assert(shape@ =~= os.remove(axis as int).subrange(0, i - 1));
                    assert(strides@ =~= ost.remove(axis as int).subrange(0, i - 1));
                }
            }
        }
        proof {
            let m = os.len() - 1;
            assert(os.remove(a).subrange(0, m) =~= rs);
            assert(ost.remove(a).subrange(0, m) =~= rst);
            lemma_max_offset_remove(os, ost, a);
            assert(strides@.subrange(0, shape@.len() as int) =~= strides@);
            assert(nonzero_dims(rs));
            lemma_size_nonneg(rs);
        }
        let mut it = LogicalIndices::new(shape, strides);
        let mut new_data: Vec<T> = copy_slice(data);
        let ghost total = size(rs);
        loop
            invariant
                it.wf(),
                it.shape_view() == rs,
                it.strides_view() == rst,
                total == size(rs),
                0 <= it.position() <= total,
                os == self.shape_view(),
                ost == self.strides_view(),
                rs == os.remove(a),
                rst == ost.remove(a),
                a == axis as int,
                os.len() == ost.len(),
                0 <= a < os.len(),
                nonzero_dims(os),
                max_offset(os, ost) < len,
                0 <= max_offset(rs, rst) <= max_offset(os, ost),
                nonzero_dims(rs),
                rs.len() == rst.len(),
                data@ == self.data_view(),
                len == data@.len(),
                n == os[a],
                step == ost[a],
                new_data@.len() == len,
                forall|d: &[T], s: usize, n: usize| f.requires((d, s, n)),
                forall|d: &[T], s: usize, n: usize, out: Vec<T>|
                    f.ensures((d, s, n), out) ==> out@.len() == n,
                forall|p: int|
                    0 <= p < len ==> {
                        ||| (forall|k: int, j: int|
                            0 <= k < it.position() ==> !on_lane(self, a, k, j, p))
                            && #[trigger] new_data@[p] == data@[p]
                        ||| exists|k: int, j: int|
                            0 <= k < it.position() && on_lane(self, a, k, j, p) && normalized_at(
                                f,
                                data@,
                                lane_start(self, a, k),
                                step,
                                n,
                                j,
                                new_data@[p],
                            ) && forall|k2: int, j2: int|
                                0 <= k2 < it.position() && #[trigger] on_lane(self, a, k2, j2, p) ==> k2 < k || (k2
                                    == k && j2 <= j)
                    },
            ensures
                forall|p: int|
                    0 <= p < len ==> {
                        ||| (forall|k: int, j: int| !on_lane(self, a, k, j, p)) && #[trigger] new_data@[p]
                            == data@[p]
                        ||| exists|k: int, j: int|
                            on_lane(self, a, k, j, p) && normalized_at(
                                f,
                                data@,
                                lane_start(self, a, k),
                                step,
                                n,
                                j,
                                new_data@[p],
                            ) && forall|k2: int, j2: int|
                                #[trigger] on_lane(self, a, k2, j2, p) ==> k2 < k || (k2 == k && j2 <= j)
                    },
                new_data@.len() == len,
            decreases total - it.position(),
        {
            let ghost k = it.position();
            match it.next() {
                Some(start) => {
                    proof {
                        assert(k < total);
                        lemma_unravel_in_bounds(rs, k);
                        lemma_offset_bounds(unravel(rs, k), rs, rst);
                        assert(start as int == lane_start(self, a, k));
                    }
                    let lane = &data[start..len];
                    let vals = f(lane, step, n);
                    let mut j: usize = 0;
                    while j < n
                        invariant
                            0 <= j <= n,
                            vals@.len() == n,
                            f.ensures((lane, step, n), vals),
                            lane@ == data@.subrange(start as int, len as int),
                            start as int == lane_start(self, a, k),
                            0 <= k < total,
                            total == size(rs),
                            in_bounds(unravel(rs, k), rs),
                            it.position() == k + 1,
                            os == self.shape_view(),
                            ost == self.strides_view(),
                            rs == os.remove(a),
                            rst == ost.remove(a),
                            a == axis as int,
                            os.len() == ost.len(),
                            0 <= a < os.len(),
                            nonzero_dims(os),
                            max_offset(os, ost) < len,
                            data@ == self.data_view(),
                            len == data@.len(),
                            n == os[a],
                            step == ost[a],
                            new_data@.len() == len,
                            forall|p: int|
                                0 <= p < len ==> {
                                    ||| (forall|k2: int, j2: int|
                                        (0 <= k2 < k || (k2 == k && 0 <= j2 < j)) ==> !on_lane(
                                            self,
                                            a,
                                            k2,
                                            j2,
                                            p,
                                        )) && #[trigger] new_data@[p] == data@[p]
                                    ||| exists|k2: int, j2: int|
                                        (0 <= k2 < k || (k2 == k && 0 <= j2 < j)) && on_lane(
                                            self,
                                            a,
                                            k2,
                                            j2,
                                            p,
                                        ) && normalized_at(
                                            f,
                                            data@,
                                            lane_start(self, a, k2),
                                            step,
                                            n,
                                            j2,
                                            new_data@[p],
                                        ) && forall|k3: int, j3: int|
                                            (0 <= k3 < k || (k3 == k && 0 <= j3 < j)) && #[trigger] on_lane(
                                                self,
                                                a,
                                                k3,
                                                j3,
                                                p,
                                            ) ==> k3 < k2 || (k3 == k2 && j3 <= j2)
                                },
                        decreases n - j,
                    {
                        let ghost coords = unravel(rs, k).insert(a, j as int);
                        proof {
                            lemma_unravel_len(rs, k);
                            lemma_offset_lane(unravel(rs, k), ost, a, j as int);
                            assert(in_bounds(coords, os)) by {
                                assert forall|q: int| 0 <= q < coords.len() implies 0 <= #[trigger] coords[q] < os[q] by {
                                    if q < a {
                                        assert(coords[q] == unravel(rs, k)[q]);
                                        assert(rs[q] == os[q]);
                                    } else if q > a {
                                        assert(coords[q] == unravel(rs, k)[q - 1]);
                                        assert(rs[q - 1] == os[q]);
                                    }
                                }
                            }
                            lemma_offset_bounds(coords, os, ost);
                        }
                        let ghost before = new_data@;
                        let p: usize = start + j * step;
                        new_data.set(p, vals[j]);
                        proof {
                            assert(normalized_at(f, data@, lane_start(self, a, k), step, n, j as int, vals@[j as int]));
                            assert(on_lane(self, a, k, j as int, p as int));
                            assert forall|q: int| 0 <= q < len && q != p as int implies !on_lane(
                                self,
                                a,
                                k,
                                j as int,
                                q,
                            ) && #[trigger] new_data@[q] == before[q] by {}
                        }
                        j += 1;
                    }
                },
                None => {
                    break;
                },
            }
        }
        RawTensor::from_parts(copy_slice(self.shape()), copy_slice(self.strides()), Rc::new(new_data))
    }
}

/// What a normalization writes at place `j` of the lane of output element `k` is what its
/// function computes at place `j` from a slice that holds the lane of `k`.
pub proof fn law_normalize_reads_lane<T, F: Fn(&[T], usize, usize) -> Vec<T>>(
    t: &RawTensor<T>,
    f: F,
    axis: int,
    k: int,
    j: int,
    v: T,
)
    requires
        t.shape_view().len() == t.strides_view().len(),
        nonzero_dims(t.shape_view()),
        max_offset(t.shape_view(), t.strides_view()) < t.data_view().len(),
        0 <= axis < t.shape_view().len(),
        0 <= k < size(t.shape_view().remove(axis)),
        normalized_at(
            f,
            t.data_view(),
            lane_start(t, axis, k),
            t.strides_view()[axis],
            t.shape_view()[axis],
            j,
            v,
        ),
    ensures
        exists|lane: &[T], out: Vec<T>|
            #![trigger f.ensures((lane, t.strides_view()[axis], t.shape_view()[axis]), out)]
            f.ensures((lane, t.strides_view()[axis], t.shape_view()[axis]), out) && 0 <= j
                < out@.len() && out@[j] == v && holds_lane(t, axis, k, lane@),
{
    let step = t.strides_view()[axis];
    let n = t.shape_view()[axis];
    let data = t.data_view();
    let start = lane_start(t, axis, k);
    let (lane, out) = choose|lane: &[T], out: Vec<T>|
        #![trigger f.ensures((lane, step, n), out)]
        lane@ == data.subrange(start, data.len() as int) && f.ensures((lane, step, n), out) && 0
            <= j < out@.len() && out@[j] == v;
    let ls = lane@;
    assert forall|q: int| 0 <= q < n implies ls[q * (step as int)] == #[trigger] t.at(
        unravel(t.shape_view().remove(axis), k).insert(axis, q),
    ) by {
        lemma_lane_place(t, axis, k, q);
    }
    lemma_lane_place(t, axis, k, n - 1);
    assert(holds_lane(t, axis, k, ls));
    assert(f.ensures((lane, step, n), out));
}

} // verus!
