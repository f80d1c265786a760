//! Shape operations: contiguity, reshape, transpose, expand, squeeze, unsqueeze, indexing.
//! All of them share the data of the tensor they start from.
use vstd::prelude::*;
use std::rc::Rc;
use super::{copy_slice, share, RawTensor};
use crate::iter::{as_ints, LogicalIndices};
use crate::shape::{
    broadcast_of, broadcast_shape, broadcast_strides, contiguous_strides_usize, in_bounds,
    is_data_contiguous, is_perm, last_index, lemma_broadcast_onto, lemma_contiguous_layout,
    lemma_offset_bounds, lemma_offset_broadcast, lemma_offset_insert_zero, lemma_offset_nonneg,
    lemma_offset_permute, lemma_offset_prefix, lemma_offset_remove, lemma_size_remove_unit,
    lemma_unravel_in_bounds, lemma_unravel_len, lemma_unravel_remove_unit, max_offset,
    nonzero_dims, offset, permute, physical, project, rdim, shapes_broadcastable, size,
    strides_ordered, unravel, row_major_up_to_units,
};

verus! {

/// Returns the strides `t` takes when expanded to `new_shape`, or `None` when `t`'s shape
/// does not broadcast to exactly `new_shape`.
pub fn expanded_strides<T>(t: &RawTensor<T>, new_shape: &[usize]) -> (r: Option<Vec<usize>>)
    ensures
        r is Some <==> (shapes_broadcastable(t.shape_view(), new_shape@) && broadcast_of(
            t.shape_view(),
            new_shape@,
        ) == new_shape@),
        r matches Some(s) ==> s@ == broadcast_strides(t.shape_view(), t.strides_view(), new_shape@),
{
    t.check_inv();
    let b = broadcast_shape(t.shape(), new_shape);
    match b {
        None => {
            return None;
        },
        Some(s) => {
            if !slices_equal(s.as_slice(), new_shape) {
                return None;
            }
        },
    }
    Some(broadcast_layout_strides(t.shape(), t.strides(), new_shape))
}

/// The strides of the layout `shape`, `strides` broadcast to `new_shape`: 0 along the
/// added leading dimensions and the dimensions of size 1, the layout's own elsewhere.
pub fn broadcast_layout_strides(shape: &[usize], strides: &[usize], new_shape: &[usize]) -> (r: Vec<usize>)
    requires
        shape@.len() == strides@.len(),
    ensures
        r@ == broadcast_strides(shape@, strides@, new_shape@),
{
    let n = new_shape.len();
    let m = shape.len();
    let mut out: Vec<usize> = Vec::new();
    let mut j: usize = 0;
    while j < n
        invariant
            n == new_shape@.len(),
            m == shape@.len(),
            m == strides@.len(),
            j <= n,
            out@.len() == j,
            forall|q: int|
                0 <= q < j ==> #[trigger] out@[q] == broadcast_strides(shape@, strides@, new_shape@)[q],
        decreases n - j,
    {
        let i = n - 1 - j;
        let v: usize = if i >= m || shape[m - 1 - i] == 1 {
            0
        } else {
            strides[m - 1 - i]
        };
        proof {
            assert(i < m ==> rdim(shape@, i as int) == shape@[m - 1 - i]);
        }
        out.push(v);
        j += 1;
    }
    proof {
        assert(out@ =~= broadcast_strides(shape@, strides@, new_shape@));
    }
    out
}

/// Element-by-element equality of two slices of dimensions.
pub fn slices_equal(a: &[usize], b: &[usize]) -> (r: bool)
    ensures
        r == (a@ == b@),
{
    if a.len() != b.len() {
        return false;
    }
    let mut i: usize = 0;
    while i < a.len()
        invariant
            a@.len() == b@.len(),
            i <= a@.len(),
            forall|j: int| 0 <= j < i ==> a@[j] == b@[j],
        decreases a@.len() - i,
    {
        if a[i] != b[i] {
            return false;
        }
        i += 1;
    }
    proof {
        assert(a@ =~= b@);
    }
    true
}

impl<T: Copy> RawTensor<T> {
    /// The elements in logical order.
    pub fn iter(&self) -> (r: Vec<T>)
        ensures
            r@ == self.values(),
    {
        self.check_inv();
        // the data length fits in `usize`, and so does every position below it
        let _dl: usize = self.data.len();
        let mut it = self.logical_indices();
        let mut out: Vec<T> = Vec::new();
        let ghost total = size(self.shape_view());
        proof {
            crate::shape::lemma_size_nonneg(self.shape_view());
        }
        loop
            invariant
                it.wf(),
                it.shape_view() == self.shape_view(),
                it.strides_view() == self.strides_view(),
                total == size(self.shape_view()),
                0 <= it.position() <= total,
                out@ == self.values().subrange(0, it.position()),
                nonzero_dims(self.shape_view()),
                self.shape_view().len() == self.strides_view().len(),
                max_offset(self.shape_view(), self.strides_view()) < self.data_view().len(),
                self.data_view().len() <= usize::MAX,
            ensures
                out@ == self.values(),
            decreases total - it.position(),
        {
            let ghost k = it.position();
            match it.next() {
                Some(p) => {
                    proof {
                        assert(k < total);
                        lemma_unravel_in_bounds(self.shape_view(), k);
                        lemma_offset_bounds(unravel(self.shape_view(), k), self.shape_view(), self.strides_view());
                        assert(p as int == physical(self.shape_view(), self.strides_view(), k));
                        assert(self.values()[k] == self.data_view()[p as int]);
                    }
                    out.push(self.data[p]);
                    proof {
                        assert(out@ =~= self.values().subrange(0, it.position()));
                    }
                },
                None => {
                    proof {
                        assert(out@ =~= self.values());
                    }
                    break;
                },
            }
        }
        out
    }

    /// The elements in logical order, each with its memory position.
    pub fn iter_indexed(&self) -> (r: Vec<(usize, T)>)
        ensures
            r@.len() == size(self.shape_view()),
            forall|k: int|
                0 <= k < r@.len() ==> #[trigger] r@[k] == (
                    physical(self.shape_view(), self.strides_view(), k) as usize,
                    self.values()[k],
                ),
    {
        self.check_inv();
        // the data length fits in `usize`, and so does every position below it
        let _dl: usize = self.data.len();
        let mut it = self.logical_indices();
        let mut out: Vec<(usize, T)> = Vec::new();
        let ghost total = size(self.shape_view());
        proof {
            crate::shape::lemma_size_nonneg(self.shape_view());
        }
        loop
            invariant
                it.wf(),
                it.shape_view() == self.shape_view(),
                it.strides_view() == self.strides_view(),
                total == size(self.shape_view()),
                0 <= it.position() <= total,
                out@.len() == it.position(),
                forall|k: int|
                    0 <= k < out@.len() ==> #[trigger] out@[k] == (
                        physical(self.shape_view(), self.strides_view(), k) as usize,
                        self.values()[k],
                    ),
                nonzero_dims(self.shape_view()),
                self.shape_view().len() == self.strides_view().len(),
                max_offset(self.shape_view(), self.strides_view()) < self.data_view().len(),
                self.data_view().len() <= usize::MAX,
            ensures
                out@.len() == total,
                forall|k: int|
                    0 <= k < out@.len() ==> #[trigger] out@[k] == (
                        physical(self.shape_view(), self.strides_view(), k) as usize,
                        self.values()[k],
                    ),
            decreases total - it.position(),
        {
            let ghost k = it.position();
            match it.next() {
                Some(p) => {
                    proof {
                        assert(k < total);
                        lemma_unravel_in_bounds(self.shape_view(), k);
                        lemma_offset_bounds(unravel(self.shape_view(), k), self.shape_view(), self.strides_view());
                        assert(p as int == physical(self.shape_view(), self.strides_view(), k));
                        assert(self.values()[k] == self.data_view()[p as int]);
                    }
                    out.push((p, self.data[p]));
                },
                None => {
                    break;
                },
            }
        }
        out
    }

    /// The data in logical order. When the tensor is laid out row-major over exactly its
    /// data (up to the strides of dimensions of size 1), this is the tensor's own data,
    /// shared; otherwise a fresh copy.
    pub fn contiguous_data(&self) -> (r: Rc<Vec<T>>)
        ensures
            r@ == self.values(),
            r@.len() == size(self.shape_view()),
            row_major_up_to_units(self.shape_view(), self.strides_view()) && self.data_view().len()
                == size(self.shape_view()) ==> r@ == self.data_view(),
    {
        self.check_inv();
        proof {
            crate::shape::lemma_suffix_sizes_fit(self.shape_view());
            crate::shape::lemma_size_nonneg(self.shape_view());
        }
        let row_major = crate::shape::strides_contiguous(self.shape());
        let n = self.shape.len();
        let mut fits = true;
        let mut i: usize = 0;
        while i < n
            invariant
                n == self.shape_view().len(),
                n == self.strides_view().len(),
                row_major@ == contiguous_strides_usize(self.shape_view()),
                i <= n,
                fits <==> forall|j: int|
                    0 <= j < i && self.shape_view()[j] != 1 ==> #[trigger] self.strides_view()[j] == row_major@[j],
            decreases n - i,
        {
            if self.shape[i] != 1 && self.strides[i] != row_major[i] {
                fits = false;
            }
            i += 1;
        }
        if fits && self.data.len() == self.len() {
            proof {
                let sh = self.shape_view();
                let st = self.strides_view();
                lemma_contiguous_layout(sh);
                assert forall|k: int| 0 <= k < size(sh) implies #[trigger] self.values()[k] == self.data_view()[k] by {
                    lemma_unravel_in_bounds(sh, k);
                    lemma_unravel_len(sh, k);
                    let c = unravel(sh, k);
                    assert forall|j: int| 0 <= j < c.len() implies #[trigger] c[j] == 0 || st[j]
                        == contiguous_strides_usize(sh)[j] by {
                        if sh[j] != 1 {
                            assert(st[j] == row_major@[j]);
                        }
                    }
                    crate::shape::lemma_offset_agree(c, st, contiguous_strides_usize(sh));
                    assert(physical(sh, contiguous_strides_usize(sh), k) == k);
                    assert(physical(sh, st, k) == k);
                }
                assert(self.values() =~= self.data_view());
            }
            return share(&self.data);
        }
        Rc::new(self.iter())
    }

    /// A new tensor with its data in logical order, laid out row-major.
    pub fn contiguous(&self) -> (r: RawTensor<T>)
        ensures
            r.shape_view() == self.shape_view(),
            r.strides_view() == contiguous_strides_usize(self.shape_view()),
            r.values() == r.data_view(),
            r.data_view() == self.values(),
    {
        self.check_inv();
        RawTensor::from_rc(self.shape(), self.contiguous_data())
    }
}

impl<T> RawTensor<T> {
    /// True when the data in memory has the same order as the logical order: the strides
    /// are positive and non-increasing.
    pub fn is_contiguous(&self) -> (r: bool)
        ensures
            r == strides_ordered(self.strides_view()),
    {
        is_data_contiguous(self.strides())
    }

    /// The memory positions of the elements, in logical order.
    pub fn logical_indices(&self) -> (r: LogicalIndices)
        ensures
            r.wf(),
            r.shape_view() == self.shape_view(),
            r.strides_view() == self.strides_view(),
            r.position() == 0,
            r.total() == size(self.shape_view()),
    {
        self.check_inv();
        // the data length fits in `usize`, and so does every position below it
        let _dl: usize = self.data.len();
        let shape = copy_slice(self.shape());
        let strides = copy_slice(self.strides());
        proof {
            assert(strides@.subrange(0, shape@.len() as int) =~= strides@);
        }
        LogicalIndices::new(shape, strides)
    }

    /// A new tensor with the same data and a new shape. The strides must be ordered, and
    /// the new shape must hold exactly the data.
    pub fn reshape(&self, new_shape: &[usize]) -> (r: RawTensor<T>)
        requires
            strides_ordered(self.strides_view()),
            nonzero_dims(new_shape@),
            size(new_shape@) == self.data_view().len(),
        ensures
            r.shape_view() == new_shape@,
            r.strides_view() == contiguous_strides_usize(new_shape@),
            r.data_view() == self.data_view(),
            r.values() == self.data_view(),
            self.strides_view() == contiguous_strides_usize(self.shape_view()) && self.data_view().len()
                == size(self.shape_view()) ==> r.values() == self.values(),
    {
        self.check_inv();
        proof {
            if self.strides_view() == contiguous_strides_usize(self.shape_view()) && self.data_view().len()
                == size(self.shape_view()) {
                let os = self.shape_view();
                lemma_contiguous_layout(os);
                crate::shape::lemma_size_nonneg(os);
                assert(self.values() =~= self.data_view());
            }
        }
        RawTensor::from_rc(new_shape, share(&self.data))
    }

    /// A new tensor with dimensions permuted: the new dimension `i` is the old dimension `perm[i]`.
    pub fn transpose(&self, perm: &[usize]) -> (r: RawTensor<T>)
        requires
            is_perm(perm@, self.shape_view().len() as int),
        ensures
            r.shape_view() == permute(self.shape_view(), perm@),
            r.strides_view() == permute(self.strides_view(), perm@),
            r.data_view() == self.data_view(),
            forall|idx: Seq<int>|
                #![trigger self.at(idx)]
                in_bounds(idx, self.shape_view()) ==> r.at(permute(idx, perm@)) == self.at(idx),
    {
        self.check_inv();
        let n = perm.len();
        let mut shape: Vec<usize> = Vec::new();
        let mut strides: Vec<usize> = Vec::new();
        let mut i: usize = 0;
        while i < n
            invariant
                n == perm@.len(),
                is_perm(perm@, self.shape_view().len() as int),
                self.shape_view().len() == self.strides_view().len(),
                i <= n,
                shape@ == permute(self.shape_view(), perm@).subrange(0, i as int),
                strides@ == permute(self.strides_view(), perm@).subrange(0, i as int),
            decreases n - i,
        {
            shape.push(self.shape[perm[i]]);
            strides.push(self.strides[perm[i]]);
            i += 1;
            proof {
                assert(shape@ =~= permute(self.shape_view(), perm@).subrange(0, i as int));
                assert(strides@ =~= permute(self.strides_view(), perm@).subrange(0, i as int));
            }
        }
        proof {
            let os = self.shape_view();
            let ost = self.strides_view();
            assert(shape@ =~= permute(os, perm@));
            assert(strides@ =~= permute(ost, perm@));
            assert(nonzero_dims(shape@)) by {
                assert forall|q: int| 0 <= q < shape@.len() implies #[trigger] shape@[q] > 0 by {
                    assert(perm@[q] < os.len());
                }
            }
            crate::shape::lemma_size_permute(os, perm@);
            lemma_offset_permute(last_index(os), ost, perm@);
            assert(permute(last_index(os), perm@) =~= last_index(shape@));
            assert forall|idx: Seq<int>| #![trigger self.at(idx)] in_bounds(idx, os) implies
                offset(permute(idx, perm@), permute(ost, perm@)) == offset(idx, ost) by {
                lemma_offset_permute(idx, ost, perm@);
            }
        }
        RawTensor::from_parts(shape, strides, share(&self.data))
    }

    /// Expands to `new_shape` by repeating the dimensions of size 1 and adding leading
    /// dimensions. The shape must broadcast to exactly `new_shape`.
    pub fn expand(&self, new_shape: &[usize]) -> (r: RawTensor<T>)
        requires
            shapes_broadcastable(self.shape_view(), new_shape@),
            broadcast_of(self.shape_view(), new_shape@) == new_shape@,
            size(new_shape@) <= usize::MAX,
        ensures
            r.shape_view() == new_shape@,
            r.strides_view() == broadcast_strides(
                self.shape_view(),
                self.strides_view(),
                new_shape@,
            ),
            r.data_view() == self.data_view(),
            forall|idx: Seq<int>|
                #![trigger r.at(idx)]
                in_bounds(idx, new_shape@) ==> r.at(idx) == self.at(
                    project(self.shape_view(), new_shape@, idx),
                ),
    {
        self.check_inv();
        let s = expanded_strides(self, new_shape);
        let strides = match s {
            Some(v) => v,
            None => {
                assert(false);
                Vec::new()
            },
        };
        proof {
            let os = self.shape_view();
            let ost = self.strides_view();
            let ns = new_shape@;
            lemma_broadcast_onto(os, ns);
            lemma_offset_broadcast(os, ost, ns, last_index(ns));
            assert(project(os, ns, last_index(ns)) =~= last_index(os));
            assert forall|idx: Seq<int>| #![trigger offset(idx, strides@)] in_bounds(idx, ns)
                implies offset(idx, strides@) == offset(project(os, ns, idx), ost) by {
                lemma_offset_broadcast(os, ost, ns, idx);
            }
        }
        RawTensor::from_parts(copy_slice(new_shape), strides, share(&self.data))
    }

    /// Removes the axis `axis`, of size 1.
    pub fn squeeze(&self, axis: usize) -> (r: RawTensor<T>)
        requires
            axis < self.shape_view().len(),
            self.shape_view()[axis as int] == 1,
        ensures
            r.shape_view() == self.shape_view().remove(axis as int),
            r.strides_view() == self.strides_view().remove(axis as int),
            r.data_view() == self.data_view(),
            r.values() == self.values(),
    {
        self.check_inv();
        let n = self.shape.len();
        let mut shape: Vec<usize> = Vec::new();
        let mut strides: Vec<usize> = Vec::new();
        let mut i: usize = 0;
        while i < n
            invariant
                n == self.shape_view().len(),
                self.shape_view().len() == self.strides_view().len(),
                axis < n,
                i <= n,
                shape@ == (if i <= axis {
                    self.shape_view().subrange(0, i as int)
                } else {
                    self.shape_view().remove(axis as int).subrange(0, i - 1)
                }),
                strides@ == (if i <= axis {
                    self.strides_view().subrange(0, i as int)
                } else {
                    self.strides_view().remove(axis as int).subrange(0, i - 1)
                }),
            decreases n - i,
        {
            if i != axis {
                shape.push(self.shape[i]);
                strides.push(self.strides[i]);
            }
            i += 1;
            proof {
                if i <= axis {
                    assert(shape@ =~= self.shape_view().subrange(0, i as int));
                    assert(strides@ =~= self.strides_view().subrange(0, i as int));
                } else {
                    assert(shape@ =~= self.shape_view().remove(axis as int).subrange(0, i - 1));
                    assert(strides@ =~= self.strides_view().remove(axis as int).subrange(0, i - 1));
                }
            }
        }
        let ghost os = self.shape_view();
        let ghost ost = self.strides_view();
        let ghost a = axis as int;
        proof {
            assert(os.remove(a).subrange(0, n - 1) =~= os.remove(a));
            assert(ost.remove(a).subrange(0, n - 1) =~= ost.remove(a));
            assert(shape@ =~= os.remove(a));
            assert(strides@ =~= ost.remove(a));
            lemma_size_remove_unit(os, a);
            lemma_offset_remove(last_index(os), ost, a);
            assert(last_index(os).remove(a) =~= last_index(os.remove(a)));
            assert(0 * (ost[a] as int) == 0);
        }
        let r = RawTensor::from_parts(shape, strides, share(&self.data));
        proof {
            assert forall|k: int| 0 <= k < size(os) implies #[trigger] physical(
                os.remove(a),
                ost.remove(a),
                k,
            ) == physical(os, ost, k) by {
                lemma_unravel_remove_unit(os, k, a);
                lemma_unravel_len(os, k);
                lemma_offset_remove(unravel(os, k), ost, a);
                assert(unravel(os, k)[a] * (ost[a] as int) == 0);
            }
            assert(r.shape_view() == os.remove(a));
            assert(r.strides_view() == ost.remove(a));
            assert(r.data_view() == self.data_view());
            crate::shape::lemma_size_nonneg(os);
            assert(r.values() =~= self.values());
        }
        r
    }

    /// Inserts an axis of size 1 at position `axis`.
    pub fn unsqueeze(&self, axis: usize) -> (r: RawTensor<T>)
        requires
            axis <= self.shape_view().len(),
            axis < self.shape_view().len() ==> self.shape_view()[axis as int] * self.strides_view()[axis as int] <= usize::MAX,
        ensures
            r.shape_view() == self.shape_view().insert(axis as int, 1),
            r.strides_view() == self.strides_view().insert(
                axis as int,
                if axis < self.shape_view().len() {
                    (self.shape_view()[axis as int] * self.strides_view()[axis as int]) as usize
                } else {
                    1usize
                },
            ),
            r.data_view() == self.data_view(),
            r.values() == self.values(),
    {
        self.check_inv();
        let n = self.shape.len();
        let new_stride: usize = if axis < n {
            self.shape[axis] * self.strides[axis]
        } else {
            1
        };
        let ghost ns0 = self.shape_view().insert(axis as int, 1);
        let ghost nst0 = self.strides_view().insert(axis as int, new_stride);
        let mut shape: Vec<usize> = Vec::new();
        let mut strides: Vec<usize> = Vec::new();
        let mut i: usize = 0;
        while i < n
            invariant
                n == self.shape_view().len(),
                self.shape_view().len() == self.strides_view().len(),
                axis <= n,
                i <= n,
                ns0 == self.shape_view().insert(axis as int, 1),
                nst0 == self.strides_view().insert(axis as int, new_stride),
                shape@ == ns0.subrange(0, if i <= axis { i as int } else { i + 1 }),
                strides@ == nst0.subrange(0, if i <= axis { i as int } else { i + 1 }),
            decreases n - i,
        {
            if i == axis {
                shape.push(1);
                strides.push(new_stride);
            }
            shape.push(self.shape[i]);
            strides.push(self.strides[i]);
            i += 1;
            proof {
                assert(shape@ =~= ns0.subrange(0, if i <= axis { i as int } else { i + 1 }));
                assert(strides@ =~= nst0.subrange(0, if i <= axis { i as int } else { i + 1 }));
            }
        }
        if axis == n {
            shape.push(1);
            strides.push(new_stride);
        }
        let ghost os = self.shape_view();
        let ghost ost = self.strides_view();
        let ghost a = axis as int;
        let ghost ns = os.insert(a, 1);
        let ghost nst = ost.insert(a, new_stride);
        proof {
            assert(shape@ =~= ns);
            assert(strides@ =~= nst);
            assert(ns.remove(a) =~= os);
            assert(nst.remove(a) =~= ost);
            lemma_size_remove_unit(ns, a);
            assert(last_index(ns) =~= last_index(os).insert(a, 0));
            lemma_offset_insert_zero(last_index(os), ost, a, new_stride);
            assert(nonzero_dims(ns));
        }
        let r = RawTensor::from_parts(shape, strides, share(&self.data));
        proof {
            assert forall|k: int| 0 <= k < size(os) implies #[trigger] physical(ns, nst, k) == physical(
                os,
                ost,
                k,
            ) by {
                lemma_unravel_remove_unit(ns, k, a);
                lemma_unravel_len(ns, k);
                lemma_offset_remove(unravel(ns, k), nst, a);
                assert(unravel(ns, k)[a] * (nst[a] as int) == 0);
            }
            crate::shape::lemma_size_nonneg(os);
            assert(size(ns) == size(os));
            assert(r.shape_view() == ns);
            assert(r.strides_view() == nst);
            assert(r.values() =~= self.values());
        }
        r
    }

    /// The element at `indices`, or `None` when the number of indices or one of them is out of bounds.
    pub fn get(&self, indices: &[usize]) -> (r: Option<T>) where T: Copy
        ensures
            r == (if in_bounds(as_ints(indices@), self.shape_view()) {
                Some(self.at(as_ints(indices@)))
            } else {
                None
            }),
    {
        proof {
            assert(as_ints(indices@).len() == indices@.len());
        }
        if self.shape.len() != indices.len() {
            return None;
        }
        let mut i: usize = 0;
        while i < indices.len()
            invariant
                indices@.len() == self.shape_view().len(),
                i <= indices@.len(),
                forall|j: int| 0 <= j < i ==> indices@[j] < self.shape_view()[j],
            decreases indices@.len() - i,
        {
            if indices[i] >= self.shape[i] {
                proof {
                    assert(as_ints(indices@)[i as int] == indices@[i as int] as int);
                }
                return None;
            }
            i += 1;
        }
        Some(self.index(indices))
    }

    /// The element at `indices`.
    pub fn index(&self, indices: &[usize]) -> (r: T) where T: Copy
        requires
            in_bounds(as_ints(indices@), self.shape_view()),
        ensures
            r == self.at(as_ints(indices@)),
    {
        self.check_inv();
        let ghost idx = as_ints(indices@);
        let ghost st = self.strides_view();
        proof {
            lemma_offset_bounds(idx, self.shape_view(), st);
        }
        let n = indices.len();
        // the data length fits in `usize`, and so does every position below it
        let _dl: usize = self.data.len();
        let mut physical: usize = 0;
        let mut i: usize = 0;
        while i < n
            invariant
                n == indices@.len(),
                idx == as_ints(indices@),
                n == st.len(),
                st == self.strides_view(),
                in_bounds(idx, self.shape_view()),
                offset(idx, st) < self.data_view().len(),
                self.data_view().len() <= usize::MAX,
                i <= n,
                physical as int == offset(idx.subrange(0, i as int), st.subrange(0, i as int)),
            decreases n - i,
        {
            proof {
                lemma_offset_prefix(idx, st, i as int + 1);
                assert(idx.subrange(0, i + 1).drop_last() =~= idx.subrange(0, i as int));
                assert(st.subrange(0, i + 1).drop_last() =~= st.subrange(0, i as int));
                vstd::arithmetic::mul::lemma_mul_nonnegative(idx[i as int], st[i as int] as int);
                assert(indices@[i as int] as int == idx[i as int]);
                assert(self.strides@[i as int] == st[i as int]);
                assert(idx.subrange(0, i + 1).last() == idx[i as int]);
                assert(st.subrange(0, i + 1).last() == st[i as int]);
            }
            physical = physical + indices[i] * self.strides[i];
            i += 1;
        }
        proof {
            assert(idx.subrange(0, n as int) =~= idx);
            assert(st.subrange(0, n as int) =~= st);
        }
        self.data[physical]
    }
}

// ---------------------------------------------------------------------------
// Laws
// ---------------------------------------------------------------------------

/// Transposing by a permutation and then by its inverse gives back the same sequence:
/// the shape and the strides of a tensor come back as they were (its data is shared
/// throughout), so the tensor is the same.
pub proof fn law_transpose_roundtrip<A>(s: Seq<A>, perm: Seq<usize>, inv: Seq<usize>)
    requires
        s.len() == perm.len(),
        is_perm(perm, s.len() as int),
        is_perm(inv, s.len() as int),
        forall|i: int| 0 <= i < s.len() ==> perm[#[trigger] inv[i] as int] == i,
    ensures
        permute(permute(s, perm), inv) == s,
{
    assert(permute(permute(s, perm), inv) =~= s);
}

/// `squeeze(a)` undoes `unsqueeze(a)` on every tensor: whatever stride the new axis got,
/// removing it gives back the shape, the strides, the data and so the logical values.
pub proof fn law_unsqueeze_then_squeeze<T>(
    t: &RawTensor<T>,
    u: &RawTensor<T>,
    v: &RawTensor<T>,
    a: int,
    x: usize,
)
    requires
        t.strides_view().len() == t.shape_view().len(),
        0 <= a <= t.shape_view().len(),
        u.shape_view() == t.shape_view().insert(a, 1),
        u.strides_view() == t.strides_view().insert(a, x),
        u.data_view() == t.data_view(),
        v.shape_view() == u.shape_view().remove(a),
        v.strides_view() == u.strides_view().remove(a),
        v.data_view() == u.data_view(),
    ensures
        v.shape_view() == t.shape_view(),
        v.strides_view() == t.strides_view(),
        v.data_view() == t.data_view(),
        v.values() == t.values(),
{
    assert(t.shape_view().insert(a, 1).remove(a) =~= t.shape_view());
    assert(t.strides_view().insert(a, x).remove(a) =~= t.strides_view());
    assert(v.values() =~= t.values());
}

/// Inserting an axis and then removing it gives back the shape and the strides:
/// `unsqueeze(a)` followed by `squeeze(a)` is the same tensor.
pub proof fn law_unsqueeze_squeeze<A>(s: Seq<A>, a: int, x: A)
    requires
        0 <= a <= s.len(),
    ensures
        s.insert(a, x).remove(a) == s,
{
    assert(s.insert(a, x).remove(a) =~= s);
}

/// Removing an axis of size 1 and inserting it back at the same place gives back the shape:
/// `squeeze(a)` followed by `unsqueeze(a)` restores the shape.
pub proof fn law_squeeze_unsqueeze_shape(s: Seq<usize>, a: int)
    requires
        0 <= a < s.len(),
        s[a] == 1,
    ensures
        s.remove(a).insert(a, 1) == s,
{
    assert(s.remove(a).insert(a, 1) =~= s);
}

/// A reduction hands its function the lane of the reduced axis: the `j`-th element of
/// the lane of output element `k` is the tensor's element at the coordinates of `k`
/// with `j` inserted at the axis.
pub proof fn law_reduce_lane<T>(t: &RawTensor<T>, axis: int, k: int, j: int)
    requires
        t.shape_view().len() == t.strides_view().len(),
        0 <= axis < t.shape_view().len(),
        0 <= j < t.shape_view()[axis],
    ensures
        crate::rawtensor::reductions::lane_start(t, axis, k) + j * (t.strides_view()[axis] as int)
            == offset(unravel(t.shape_view().remove(axis), k).insert(axis, j), t.strides_view()),
        t.data_view()[crate::rawtensor::reductions::lane_start(t, axis, k) + j * (
        t.strides_view()[axis] as int)] == t.at(unravel(t.shape_view().remove(axis), k).insert(axis, j)),
{
    let rs = t.shape_view().remove(axis);
    lemma_unravel_len(rs, k);
    crate::shape::lemma_offset_lane(unravel(rs, k), t.strides_view(), axis, j);
}

} // verus!
