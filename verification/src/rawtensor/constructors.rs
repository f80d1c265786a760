//! Constructors. They take the desired shape and return contiguous tensors.
use vstd::prelude::*;
use std::rc::Rc;
use super::{copy_slice, RawTensor};
use crate::shape::{
    contiguous_strides_usize, lemma_contiguous_layout, lemma_prefix_size_mono,
    lemma_prefix_size_step, lemma_suffix_sizes_fit, nonzero_dims, size, strides_contiguous,
};

verus! {

/// The product of the dimensions.
pub fn product(shape: &[usize]) -> (r: usize)
    requires
        nonzero_dims(shape@),
        size(shape@) <= usize::MAX,
    ensures
        r == size(shape@),
{
    let n = shape.len();
    let mut acc: usize = 1;
    let mut i: usize = 0;
    proof {
        assert(shape@.subrange(0, 0).len() == 0);
    }
    while i < n
        invariant
            n == shape@.len(),
            i <= n,
            nonzero_dims(shape@),
            size(shape@) <= usize::MAX,
            acc as int == size(shape@.subrange(0, i as int)),
        decreases n - i,
    {
        proof {
            lemma_prefix_size_step(shape@, i as int);
            lemma_prefix_size_mono(shape@, i as int + 1);
        }
        acc = acc * shape[i];
        i += 1;
    }
    proof {
        assert(shape@.subrange(0, n as int) =~= shape@);
    }
    acc
}

impl<T> RawTensor<T> {
    /// A contiguous tensor over shared data (no copying).
    pub fn from_rc(shape: &[usize], data: Rc<Vec<T>>) -> (r: RawTensor<T>)
        requires
            nonzero_dims(shape@),
            size(shape@) == data@.len(),
        ensures
            r.shape_view() == shape@,
            r.strides_view() == contiguous_strides_usize(shape@),
            r.data_view() == data@,
            r.values() == data@,
    {
        // the data length fits in `usize`, and so does the size of the shape
        let _len: usize = data.len();
        proof {
            lemma_suffix_sizes_fit(shape@);
            lemma_contiguous_layout(shape@);
        }
        let strides = strides_contiguous(shape);
        let r = RawTensor::from_parts(copy_slice(shape), strides, data);
        proof {
            assert(r.values() =~= data@);
        }
        r
    }

    /// A contiguous tensor from a boxed slice (the data is moved, not copied).
    pub fn from_box(shape: &[usize], data: Box<[T]>) -> (r: RawTensor<T>)
        requires
            nonzero_dims(shape@),
            size(shape@) == data@.len(),
        ensures
            r.shape_view() == shape@,
            r.strides_view() == contiguous_strides_usize(shape@),
            r.data_view() == data@,
            r.values() == data@,
    {
        RawTensor::from_rc(shape, Rc::new(data.into_vec()))
    }

    /// A contiguous tensor from a vector.
    pub fn from_vec(shape: &[usize], data: Vec<T>) -> (r: RawTensor<T>)
        requires
            nonzero_dims(shape@),
            size(shape@) == data@.len(),
        ensures
            r.shape_view() == shape@,
            r.strides_view() == contiguous_strides_usize(shape@),
            r.data_view() == data@,
            r.values() == data@,
    {
        RawTensor::from_rc(shape, Rc::new(data))
    }

    /// A contiguous tensor from a slice (copies the data).
    pub fn from_slice(shape: &[usize], data: &[T]) -> (r: RawTensor<T>) where T: Copy
        requires
            nonzero_dims(shape@),
            size(shape@) == data@.len(),
        ensures
            r.shape_view() == shape@,
            r.strides_view() == contiguous_strides_usize(shape@),
            r.data_view() == data@,
            r.values() == data@,
    {
        RawTensor::from_rc(shape, Rc::new(copy_slice(data)))
    }

    /// A 0-dimensional tensor holding `scalar`.
    pub fn from_scalar(scalar: T) -> (r: RawTensor<T>)
        ensures
            r.shape_view() == Seq::<usize>::empty(),
            r.values() == seq![scalar],
    {
        let shape: [usize; 0] = [];
        let mut data: Vec<T> = Vec::new();
        data.push(scalar);
        proof {
            assert(shape@ =~= Seq::<usize>::empty());
            assert(size(shape@) == 1);
            assert(data@ =~= seq![scalar]);
        }
        RawTensor::from_vec(&shape, data)
    }

    /// A tensor of the given shape with every element equal to `value`.
    pub fn full(shape: &[usize], value: T) -> (r: RawTensor<T>) where T: Copy
        requires
            nonzero_dims(shape@),
            size(shape@) <= usize::MAX,
        ensures
            r.shape_view() == shape@,
            r.strides_view() == contiguous_strides_usize(shape@),
            r.values() == Seq::new(size(shape@) as nat, |k: int| value),
    {
        let len = product(shape);
        let mut data: Vec<T> = Vec::new();
        let mut i: usize = 0;
        while i < len
            invariant
                i <= len,
                data@ == Seq::new(i as nat, |k: int| value),
            decreases len - i,
        {
            data.push(value);
            i += 1;
            proof {
                assert(data@ =~= Seq::new(i as nat, |k: int| value));
            }
        }
        RawTensor::from_vec(shape, data)
    }

    /// The `n x n` identity pattern: `one` on the diagonal, `zero` elsewhere.
    pub fn identity(n: usize, zero: T, one: T) -> (r: RawTensor<T>) where T: Copy
        requires
            n > 0,
            n * n <= usize::MAX,
        ensures
            r.shape_view() == seq![n, n],
            r.values() == Seq::new(
                (n * n) as nat,
                |k: int|
                    if k % (n as int) == k / (n as int) {
                        one
                    } else {
                        zero
                    },
            ),
    {
        let len: usize = n * n;
        let mut data: Vec<T> = Vec::new();
        let mut i: usize = 0;
        let ghost pattern = Seq::new(
            len as nat,
            |k: int|
                if k % (n as int) == k / (n as int) {
                    one
                } else {
                    zero
                },
        );
        while i < len
            invariant
                i <= len,
                len == n * n,
                n > 0,
                pattern == Seq::new(
                    len as nat,
                    |k: int|
                        if k % (n as int) == k / (n as int) {
                            one
                        } else {
                            zero
                        },
                ),
                data@ == pattern.subrange(0, i as int),
            decreases len - i,
        {
            if i % n == i / n {
                data.push(one);
            } else {
                data.push(zero);
            }
            i += 1;
            proof {
                assert(data@ =~= pattern.subrange(0, i as int));
            }
        }
        let shape: [usize; 2] = [n, n];
        proof {
            assert(data@ =~= pattern);
            assert(shape@ =~= seq![n, n]);
            assert(seq![n, n].drop_last() =~= seq![n]);
            assert(seq![n].drop_last() =~= Seq::<usize>::empty());
            assert(size(Seq::<usize>::empty()) == 1);
            assert(size(seq![n]) == size(Seq::<usize>::empty()) * (n as int));
            assert(size(seq![n]) == n);
            assert(size(seq![n, n]) == size(seq![n]) * (n as int));
            assert(size(shape@) == n * n);
        }
        RawTensor::from_vec(&shape, data)
    }
}

} // verus!
