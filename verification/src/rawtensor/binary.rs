//! Elementwise binary operations with broadcasting. The core primitive is `elementwise_op`.
use vstd::prelude::*;
use super::RawTensor;
use crate::shape::{
    broadcast_of, broadcast_shape, contiguous_strides_usize, lemma_broadcast_commutes,
    lemma_broadcast_operand, lemma_size_nonneg, lemma_unravel_in_bounds, lemma_unravel_len,
    nonzero_dims, project, shapes_broadcastable, size, unravel,
};

verus! {

/// The element of `t` that a broadcast to `out_shape` reads at logical position `k`.
pub open spec fn broadcast_value<T>(t: &RawTensor<T>, out_shape: Seq<usize>, k: int) -> T {
    t.at(project(t.shape_view(), out_shape, unravel(out_shape, k)))
}

impl<T: Copy> RawTensor<T> {
    /// A new contiguous tensor with `f` applied pairwise to the two tensors broadcast
    /// to their common shape.
    pub fn elementwise_op(&self, other: &RawTensor<T>, f: impl Fn(T, T) -> T) -> (r: RawTensor<T>)
        requires
            shapes_broadcastable(self.shape_view(), other.shape_view()),
            size(broadcast_of(self.shape_view(), other.shape_view())) <= usize::MAX,
            forall|x: T, y: T| f.requires((x, y)),
        ensures
            r.shape_view() == broadcast_of(self.shape_view(), other.shape_view()),
            r.strides_view() == contiguous_strides_usize(r.shape_view()),
            r.values() == r.data_view(),
            r.values().len() == size(r.shape_view()),
            forall|k: int|
                0 <= k < r.values().len() ==> f.ensures(
                    (
                        broadcast_value(self, r.shape_view(), k),
                        broadcast_value(other, r.shape_view(), k),
                    ),
                    #[trigger] r.values()[k],
                ),
    {
        self.check_inv();
        other.check_inv();
        let ghost s1 = self.shape_view();
        let ghost s2 = other.shape_view();
        let out_shape = match broadcast_shape(self.shape(), other.shape()) {
            Some(s) => s,
            None => {
                assert(false);
                Vec::new()
            },
        };
        proof {
            lemma_broadcast_operand(s1, s2);
            lemma_broadcast_commutes(s1, s2);
            lemma_broadcast_operand(s2, s1);
            crate::shape::lemma_broadcast_onto(s1, out_shape@);
        }
        let a = self.expand(out_shape.as_slice());
        let b = other.expand(out_shape.as_slice());
        let va = a.iter();
        let vb = b.iter();
        let ghost os = out_shape@;
        proof {
            lemma_size_nonneg(os);
        }
        let n = va.len();
        let mut out: Vec<T> = Vec::new();
        let mut i: usize = 0;
        while i < n
            invariant
                n == va@.len(),
                va@ == a.values(),
                vb@ == b.values(),
                a.values().len() == b.values().len(),
                forall|x: T, y: T| f.requires((x, y)),
                i <= n,
                out@.len() == i,
                forall|q: int| 0 <= q < i ==> f.ensures((va@[q], vb@[q]), #[trigger] out@[q]),
            decreases n - i,
        {
            let z = f(va[i], vb[i]);
            out.push(z);
            i += 1;
        }
        proof {
            assert forall|k: int| 0 <= k < n implies va@[k] == broadcast_value(self, os, k) && vb@[k]
                == broadcast_value(other, os, k) by {
                lemma_unravel_in_bounds(os, k);
                lemma_unravel_len(os, k);
                let idx = unravel(os, k);
                assert(a.at(idx) == self.at(project(s1, os, idx)));
                assert(b.at(idx) == other.at(project(s2, os, idx)));
            }
        }
        RawTensor::from_vec(out_shape.as_slice(), out)
    }
}

} // verus!
