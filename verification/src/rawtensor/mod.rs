//! `RawTensor`: a multidimensional array stored flat in shared, reference-counted data.
//!
//! Dimensions are nonzero. The data may not be in logical order: `strides[i]` is the
//! step in the data for a unit increment along dimension `i`, so the tensor is a view
//! (transposed, expanded, ...) that several tensors may share.
use vstd::prelude::*;
use std::rc::Rc;
use crate::shape::{
    lemma_prefix_size_mono, lemma_prefix_size_step, max_offset, nonzero_dims, offset,
    physical, size,
};

pub mod constructors;
pub mod structure;
pub mod unary;
pub mod binary;
pub mod reductions;
pub mod normalizations;
pub mod accumulate;
pub mod linalg;

verus! {

/// A multidimensional array of `T`, stored flat in `data` and read through `strides`.
pub struct RawTensor<T> {
    shape: Vec<usize>,
    strides: Vec<usize>,
    data: Rc<Vec<T>>,
}

/// `Rc::clone`: another pointer to the same allocation, holding the same value.
#[verifier::external_body]
pub(crate) fn share<T>(rc: &Rc<T>) -> (res: Rc<T>)
    ensures
        res == *rc,
{
    Rc::clone(rc)
}

/// Copies a slice into a new vector.
pub(crate) fn copy_slice<U: Copy>(s: &[U]) -> (r: Vec<U>)
    ensures
        r@ == s@,
{
    let mut r: Vec<U> = Vec::new();
    let mut i: usize = 0;
    while i < s.len()
        invariant
            i <= s@.len(),
            r@ == s@.subrange(0, i as int),
        decreases s@.len() - i,
    {
        r.push(s[i]);
        i += 1;
        proof {
            assert(r@ =~= s@.subrange(0, i as int));
        }
    }
    proof {
        assert(r@ =~= s@);
    }
    r
}

/// A copy of `s` without the entry at `axis`.
pub(crate) fn without(s: &[usize], axis: usize) -> (r: Vec<usize>)
    requires
        axis < s@.len(),
    ensures
        r@ == s@.remove(axis as int),
{
    let mut r: Vec<usize> = Vec::new();
    let mut i: usize = 0;
    while i < s.len()
        invariant
            axis < s@.len(),
            i <= s@.len(),
            r@ == (if i <= axis {
                s@.subrange(0, i as int)
            } else {
                s@.remove(axis as int).subrange(0, i - 1)
            }),
        decreases s@.len() - i,
    {
        if i != axis {
            r.push(s[i]);
        }
        i += 1;
        proof {
            if i <= axis {
                assert(r@ =~= s@.subrange(0, i as int));
            } else {
                assert(r@ =~= s@.remove(axis as int).subrange(0, i - 1));
            }
        }
    }
    proof {
        assert(s@.remove(axis as int).subrange(0, s@.len() - 1) =~= s@.remove(axis as int));
    }
    r
}

/// A clone shares the data.
impl<T> Clone for RawTensor<T> {
    fn clone(&self) -> (r: Self)
        ensures
            r.shape_view() == self.shape_view(),
            r.strides_view() == self.strides_view(),
            r.data_view() == self.data_view(),
    {
        self.check_inv();
        RawTensor::from_parts(copy_slice(self.shape()), copy_slice(self.strides()), share(&self.data))
    }
}

impl<T> RawTensor<T> {
    /// The dimensions.
    pub closed spec fn shape_view(&self) -> Seq<usize> {
        self.shape@
    }

    /// The step in the data of each dimension.
    pub closed spec fn strides_view(&self) -> Seq<usize> {
        self.strides@
    }

    /// The backing data, in memory order.
    pub closed spec fn data_view(&self) -> Seq<T> {
        self.data@
    }

    /// The element at coordinates `idx`.
    pub open spec fn at(&self, idx: Seq<int>) -> T {
        self.data_view()[offset(idx, self.strides_view())]
    }

    /// The elements in logical (row-major) order.
    pub open spec fn values(&self) -> Seq<T> {
        Seq::new(
            size(self.shape_view()) as nat,
            |k: int| self.data_view()[physical(self.shape_view(), self.strides_view(), k)],
        )
    }

    #[verifier::type_invariant]
    spec fn inv(&self) -> bool {
        &&& self.shape@.len() == self.strides@.len()
        &&& nonzero_dims(self.shape@)
        &&& size(self.shape@) <= usize::MAX
        &&& max_offset(self.shape@, self.strides@) < self.data@.len()
    }

    /// Builds a tensor from its parts; the parts must keep the invariant.
    pub(crate) fn from_parts(shape: Vec<usize>, strides: Vec<usize>, data: Rc<Vec<T>>) -> (r: Self)
        requires
            shape@.len() == strides@.len(),
            nonzero_dims(shape@),
            size(shape@) <= usize::MAX,
            max_offset(shape@, strides@) < data@.len(),
        ensures
            r.shape_view() == shape@,
            r.strides_view() == strides@,
            r.data_view() == data@,
    {
        RawTensor { shape, strides, data }
    }

    /// The facts that every tensor keeps.
    pub(crate) fn check_inv(&self)
        ensures
            self.shape_view().len() == self.strides_view().len(),
            nonzero_dims(self.shape_view()),
            size(self.shape_view()) <= usize::MAX,
            max_offset(self.shape_view(), self.strides_view()) < self.data_view().len(),
    {
        proof {
            use_type_invariant(self);
        }
    }

    /// The dimensions.
    pub fn shape(&self) -> (r: &[usize])
        ensures
            r@ == self.shape_view(),
    {
        self.shape.as_slice()
    }

    /// The backing data, in memory order.
    pub fn data(&self) -> (r: &[T])
        ensures
            r@ == self.data_view(),
    {
        self.data.as_slice()
    }

    /// Takes the tensor apart when no other tensor shares its data: its shape, its
    /// strides and its data, owned. When the data is shared, the tensor comes back as it
    /// was. Which of the two happens depends on the other holders of the data, which the
    /// tensor's value does not show.
    pub(crate) fn into_unique_parts(self) -> (r: Result<(Vec<usize>, Vec<usize>, Vec<T>), RawTensor<T>>)
        ensures
            r matches Ok((shape, strides, data)) ==> {
                &&& shape@ == self.shape_view()
                &&& strides@ == self.strides_view()
                &&& data@ == self.data_view()
            },
            r matches Err(t) ==> {
                &&& t.shape_view() == self.shape_view()
                &&& t.strides_view() == self.strides_view()
                &&& t.data_view() == self.data_view()
            },
    {
        proof {
            use_type_invariant(&self);
        }
        let RawTensor { shape, strides, data } = self;
        match Rc::try_unwrap(data) {
            Ok(v) => Ok((shape, strides, v)),
            Err(d) => Err(RawTensor { shape, strides, data: d }),
        }
    }

    /// The number of dimensions.
    pub fn ndim(&self) -> (r: usize)
        ensures
            r == self.shape_view().len(),
    {
        self.shape.len()
    }

    /// The number of elements: the product of the dimensions.
    pub fn len(&self) -> (r: usize)
        ensures
            r == size(self.shape_view()),
    {
        proof {
            use_type_invariant(self);
        }
        let n = self.shape.len();
        let mut acc: usize = 1;
        let mut i: usize = 0;
        proof {
            assert(self.shape@.subrange(0, 0).len() == 0);
        }
        while i < n
            invariant
                n == self.shape@.len(),
                i <= n,
                nonzero_dims(self.shape@),
                size(self.shape@) <= usize::MAX,
                acc as int == size(self.shape@.subrange(0, i as int)),
            decreases n - i,
        {
            proof {
                lemma_prefix_size_step(self.shape@, i as int);
                lemma_prefix_size_mono(self.shape@, i as int + 1);
            }
            acc = acc * self.shape[i];
            i += 1;
        }
        proof {
            assert(self.shape@.subrange(0, n as int) =~= self.shape@);
        }
        acc
    }

    /// True when some dimension is zero (never, for a tensor built by this library).
    pub fn is_empty(&self) -> (r: bool)
        ensures
            r == exists|i: int| 0 <= i < self.shape_view().len() && self.shape_view()[i] == 0,
            r == false,
    {
        proof {
            use_type_invariant(self);
        }
        let n = self.shape.len();
        let mut i: usize = 0;
        while i < n
            invariant
                n == self.shape@.len(),
                i <= n,
                nonzero_dims(self.shape@),
                forall|j: int| 0 <= j < i ==> self.shape@[j] != 0,
            decreases n - i,
        {
            if self.shape[i] == 0 {
                return true;
            }
            i += 1;
        }
        false
    }

    /// The step in the data of each dimension.
    pub fn strides(&self) -> (r: &[usize])
        ensures
            r@ == self.strides_view(),
    {
        self.strides.as_slice()
    }
}

} // verus!
