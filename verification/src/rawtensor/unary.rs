//! Elementwise unary operations. The core primitive is `map`.
use vstd::prelude::*;
use std::rc::Rc;
use super::RawTensor;
use crate::shape::{physical, size};

verus! {

impl<T: Copy> RawTensor<T> {
    /// A new tensor with `f` applied to every element of the data, keeping the strides.
    pub fn map(&self, f: impl Fn(T) -> T) -> (r: RawTensor<T>)
        requires
            forall|x: T| f.requires((x,)),
        ensures
            r.shape_view() == self.shape_view(),
            r.strides_view() == self.strides_view(),
            r.data_view().len() == self.data_view().len(),
            forall|i: int|
                0 <= i < self.data_view().len() ==> f.ensures(
                    (self.data_view()[i],),
                    #[trigger] r.data_view()[i],
                ),
            r.values().len() == self.values().len(),
            forall|k: int|
                0 <= k < self.values().len() ==> f.ensures(
                    (self.values()[k],),
                    #[trigger] r.values()[k],
                ),
    {
        self.check_inv();
        let data = self.data();
        let n = data.len();
        let mut out: Vec<T> = Vec::new();
        let mut i: usize = 0;
        while i < n
            invariant
                n == data@.len(),
                data@ == self.data_view(),
                forall|x: T| f.requires((x,)),
                i <= n,
                out@.len() == i,
                forall|q: int| 0 <= q < i ==> f.ensures((data@[q],), #[trigger] out@[q]),
            decreases n - i,
        {
            let y = f(data[i]);
            out.push(y);
            i += 1;
        }
        let r = RawTensor::from_parts(
            super::copy_slice(self.shape()),
            super::copy_slice(self.strides()),
            Rc::new(out),
        );
        proof {
            crate::shape::lemma_size_nonneg(self.shape_view());
            assert forall|k: int| 0 <= k < self.values().len() implies f.ensures(
                (self.values()[k],),
                #[trigger] r.values()[k],
            ) by {
                crate::shape::lemma_unravel_in_bounds(self.shape_view(), k);
                crate::shape::lemma_offset_bounds(
                    crate::shape::unravel(self.shape_view(), k),
                    self.shape_view(),
                    self.strides_view(),
                );
                let p = physical(self.shape_view(), self.strides_view(), k);
                assert(self.values()[k] == data@[p]);
                assert(r.values()[k] == out@[p]);
            }
        }
        r
    }
}

} // verus!
