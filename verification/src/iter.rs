//! Iteration over the memory positions of a strided layout in logical (row-major) order.
//!
//! Stepping costs O(1) amortized: the coordinates are kept as an odometer and the
//! memory position is updated by the strides of the coordinates that change.
use vstd::prelude::*;
use crate::shape::{
    in_bounds, last_index, lemma_offset_bounds, lemma_offset_update, lemma_offset_zero,
    lemma_ravel_bounds, lemma_ravel_last, lemma_ravel_step, lemma_ravel_unravel,
    lemma_size_nonneg, lemma_size_positive, lemma_size_zero, lemma_unravel_in_bounds,
    lemma_unravel_ravel, lemma_unravel_zero, max_offset, nonzero_dims, offset, physical, size,
    step_at, unravel,
};

verus! {

/// Coordinates as integers.
pub open spec fn as_ints(s: Seq<usize>) -> Seq<int> {
    Seq::new(s.len(), |i: int| s[i] as int)
}

/// The memory positions of a layout, in logical order: the `k`-th is `physical(shape, strides, k)`.
pub struct LogicalIndices {
    shape: Vec<usize>,
    strides: Vec<usize>,
    indices: Vec<usize>,
    flat: usize,
    done: bool,
    pos: Ghost<int>,
}

impl LogicalIndices {
    /// Shape being walked.
    pub closed spec fn shape_view(&self) -> Seq<usize> {
        self.shape@
    }

    /// Strides being walked (one per dimension).
    pub closed spec fn strides_view(&self) -> Seq<usize> {
        self.strides@.subrange(0, self.shape@.len() as int)
    }

    /// Number of positions handed out so far.
    pub closed spec fn position(&self) -> int {
        self.pos@
    }

    /// Number of positions in total.
    pub open spec fn total(&self) -> int {
        size(self.shape_view())
    }

    pub closed spec fn wf(&self) -> bool {
        &&& self.strides@.len() >= self.shape@.len()
        &&& self.indices@.len() == self.shape@.len()
        &&& 0 <= self.pos@ <= size(self.shape@)
        &&& self.done <==> self.pos@ == size(self.shape@)
        &&& !self.done ==> {
            &&& nonzero_dims(self.shape@)
            &&& max_offset(self.shape@, self.strides_view()) <= usize::MAX
            &&& as_ints(self.indices@) == unravel(self.shape@, self.pos@)
            &&& self.flat as int == offset(as_ints(self.indices@), self.strides_view())
        }
    }

    /// Starts at the first logical element. A shape with a zero dimension has no element.
    pub fn new(shape: Vec<usize>, strides: Vec<usize>) -> (r: LogicalIndices)
        requires
            strides@.len() >= shape@.len(),
            nonzero_dims(shape@) ==> max_offset(shape@, strides@.subrange(0, shape@.len() as int))
                <= usize::MAX,
        ensures
            r.wf(),
            r.shape_view() == shape@,
            r.strides_view() == strides@.subrange(0, shape@.len() as int),
            r.position() == 0,
    {
        let n = shape.len();
        let mut done = false;
        let mut i: usize = 0;
        while i < n
            invariant
                n == shape@.len(),
                i <= n,
                done <==> exists|j: int| 0 <= j < i && shape@[j] == 0,
            decreases n - i,
        {
            if shape[i] == 0 {
                done = true;
            }
            i += 1;
        }
        let indices: Vec<usize> = vec![0; n];
        let ghost st = strides@.subrange(0, shape@.len() as int);
        proof {
            lemma_size_nonneg(shape@);
            if done {
                let j = choose|j: int| 0 <= j < n && shape@[j] == 0;
                lemma_size_zero(shape@, j);
            } else {
                lemma_size_positive(shape@);
                lemma_unravel_zero(shape@);
                assert(as_ints(indices@) =~= unravel(shape@, 0));
                lemma_offset_zero(as_ints(indices@), st);
            }
        }
        LogicalIndices { done, indices, shape, strides, flat: 0, pos: Ghost(0) }
    }

    /// Hands out the memory position of the next logical element, or `None` past the last one.
    pub fn next(&mut self) -> (r: Option<usize>)
        requires
            old(self).wf(),
        ensures
            final(self).wf(),
            final(self).shape_view() == old(self).shape_view(),
            final(self).strides_view() == old(self).strides_view(),
            old(self).position() < old(self).total() ==> {
                &&& r == Some(
                    physical(old(self).shape_view(), old(self).strides_view(), old(self).position())
                        as usize,
                )
                &&& final(self).position() == old(self).position() + 1
            },
            old(self).position() == old(self).total() ==> {
                &&& r is None
                &&& final(self).position() == old(self).position()
            },
    {
        if self.done {
            return None;
        }
        let ghost shape = self.shape@;
        let ghost st = self.strides_view();
        let ghost p = self.pos@;
        let ghost idx = unravel(shape, p);
        proof {
            lemma_unravel_in_bounds(shape, p);
            lemma_offset_bounds(idx, shape, st);
        }
        let res: usize = self.flat;
        let mut i: usize = self.indices.len();
        while i > 0 && self.indices[i - 1] + 1 == self.shape[i - 1]
            invariant
                self.shape@ == shape,
                self.strides@.subrange(0, shape.len() as int) == st,
                self.strides@.len() >= shape.len(),
                st.len() == shape.len(),
                self.indices@.len() == shape.len(),
                in_bounds(idx, shape),
                nonzero_dims(shape),
                max_offset(shape, st) <= usize::MAX,
                0 <= i <= shape.len(),
                forall|t: int| 0 <= t < i ==> #[trigger] self.indices@[t] as int == idx[t],
                forall|t: int| i <= t < shape.len() ==> #[trigger] self.indices@[t] == 0,
                forall|t: int| i <= t < shape.len() ==> #[trigger] idx[t] == shape[t] - 1,
                self.flat as int == offset(as_ints(self.indices@), st),
                0 <= offset(as_ints(self.indices@), st) <= offset(idx, st),
                self.done == false,
                self.pos@ == p,
            decreases i,
        {
            i -= 1;
            proof {
                let cur = as_ints(self.indices@);
                lemma_offset_update(cur, st, i as int, 0);
                assert(cur.update(i as int, 0) =~= as_ints(self.indices@.update(i as int, 0)));
                assert(in_bounds(cur.update(i as int, 0), shape));
                lemma_offset_bounds(cur.update(i as int, 0), shape, st);
                assert(self.strides@[i as int] == st[i as int]);
                assert(cur[i as int] == self.indices@[i as int] as int);
                let a = cur[i as int];
                let b = st[i as int] as int;
                assert((0 - a) * b == -(a * b)) by (nonlinear_arith);
                assert(a * b <= self.flat);
                vstd::arithmetic::mul::lemma_mul_nonnegative(idx[i as int], st[i as int] as int);
            }
            let d: usize = self.indices[i] * self.strides[i];
            self.flat = self.flat - d;
            self.indices.set(i, 0);
        }
        proof {
            if i > 0 {
                assert(self.indices@[i - 1] as int == idx[i - 1]);
            }
        }
        if i == 0 {
            proof {
                assert(idx =~= last_index(shape));
                lemma_ravel_last(shape);
                lemma_ravel_unravel(shape, p);
            }
            self.done = true;
            self.pos = Ghost(p + 1);
        } else {
            i -= 1;
            let ghost j = i as int;
            proof {
                lemma_ravel_step(shape, idx, j);
                lemma_ravel_unravel(shape, p);
                let nxt = step_at(idx, j);
                lemma_ravel_bounds(shape, nxt);
                lemma_unravel_ravel(shape, nxt);
                let cur = as_ints(self.indices@);
                assert(cur[j] == idx[j]);
                lemma_offset_update(cur, st, j, idx[j] + 1);
                assert(cur.update(j, idx[j] + 1) =~= nxt);
                assert(as_ints(self.indices@.update(j, (idx[j] + 1) as usize)) =~= nxt);
                lemma_offset_bounds(nxt, shape, st);
                assert(self.strides@[j] == st[j]);
                let b = st[j] as int;
                assert((idx[j] + 1 - cur[j]) * b == b) by (nonlinear_arith)
                    requires
                        cur[j] == idx[j],
                ;
                assert(self.flat + b <= usize::MAX);
            }
            let v: usize = self.indices[i] + 1;
            self.indices.set(i, v);
            self.flat = self.flat + self.strides[i];
            self.pos = Ghost(p + 1);
            proof {
                assert(as_ints(self.indices@) =~= step_at(idx, j));
            }
        }
        Some(res)
    }
}

} // verus!
