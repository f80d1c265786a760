//! Shapes, strides and broadcasting: the integer side of a strided tensor.
//!
//! A tensor of shape `s` has `size(s)` elements, visited in row-major (logical)
//! order. The `k`-th element has the coordinates `unravel(s, k)`, and a layout
//! with strides `st` stores it at position `offset(unravel(s, k), st)`.
use vstd::prelude::*;
use vstd::arithmetic::div_mod::{
    lemma_fundamental_div_mod, lemma_fundamental_div_mod_converse, lemma_mod_bound,
    lemma_div_pos_is_pos, lemma_mod_breakdown, lemma_div_denominator,
};
use vstd::arithmetic::mul::{
    lemma_mul_is_associative, lemma_mul_nonnegative, lemma_mul_inequality,
    lemma_mul_is_commutative, lemma_mul_is_distributive_add, lemma_mul_strictly_positive,
};

verus! {

// ---------------------------------------------------------------------------
// Mathematical model
// ---------------------------------------------------------------------------

/// Number of elements of a tensor of shape `shape` (the product of its dimensions).
pub open spec fn size(shape: Seq<usize>) -> int
    decreases shape.len(),
{
    if shape.len() == 0 {
        1
    } else {
        size(shape.drop_last()) * (shape.last() as int)
    }
}

/// Product of the dimensions of `shape` from position `i` on.
pub open spec fn suffix_size(shape: Seq<usize>, i: int) -> int {
    size(shape.subrange(i, shape.len() as int))
}

/// Coordinates of the `k`-th element of a tensor of shape `shape` in row-major order
/// (each coordinate taken modulo its dimension, as a mixed-radix number).
pub open spec fn unravel(shape: Seq<usize>, k: int) -> Seq<int>
    decreases shape.len(),
{
    if shape.len() == 0 {
        seq![]
    } else {
        unravel(shape.drop_last(), k / (shape.last() as int)).push(k % (shape.last() as int))
    }
}

/// Memory position of the coordinates `idx` under the strides `strides`:
/// the sum of `idx[i] * strides[i]`.
pub open spec fn offset(idx: Seq<int>, strides: Seq<usize>) -> int
    decreases idx.len(),
{
    if idx.len() == 0 || strides.len() == 0 {
        0
    } else {
        offset(idx.drop_last(), strides.drop_last()) + idx.last() * (strides.last() as int)
    }
}

/// Memory position of the `k`-th logical element of a layout.
pub open spec fn physical(shape: Seq<usize>, strides: Seq<usize>, k: int) -> int {
    offset(unravel(shape, k), strides)
}

/// Coordinates of the last element of `shape` (each dimension minus one).
pub open spec fn last_index(shape: Seq<usize>) -> Seq<int> {
    Seq::new(shape.len(), |i: int| shape[i] - 1)
}

/// Largest memory position that a layout reaches.
pub open spec fn max_offset(shape: Seq<usize>, strides: Seq<usize>) -> int {
    offset(last_index(shape), strides)
}

/// Coordinates that lie inside `shape`.
pub open spec fn in_bounds(idx: Seq<int>, shape: Seq<usize>) -> bool {
    &&& idx.len() == shape.len()
    &&& forall|i: int| 0 <= i < idx.len() ==> 0 <= #[trigger] idx[i] < shape[i]
}

/// All dimensions are nonzero.
pub open spec fn nonzero_dims(shape: Seq<usize>) -> bool {
    forall|i: int| 0 <= i < shape.len() ==> #[trigger] shape[i] > 0
}

/// Dimension `t` counted from the right, or 1 past the left end.
pub open spec fn rdim(shape: Seq<usize>, t: int) -> usize {
    if 0 <= t < shape.len() {
        shape[shape.len() - 1 - t]
    } else {
        1
    }
}

/// Two dimensions are compatible under broadcasting: equal, or one of them is 1.
pub open spec fn dims_broadcastable(d1: usize, d2: usize) -> bool {
    d1 == d2 || d1 == 1 || d2 == 1
}

/// Two shapes broadcast together: right-aligned, every pair of dimensions is compatible.
pub open spec fn shapes_broadcastable(s1: Seq<usize>, s2: Seq<usize>) -> bool {
    forall|t: int|
        0 <= t < vstd::math::max(s1.len() as int, s2.len() as int) ==> dims_broadcastable(
            #[trigger] rdim(s1, t),
            rdim(s2, t),
        )
}

/// Shape obtained by broadcasting `s1` with `s2`: right-aligned, the larger dimension of each pair.
pub open spec fn broadcast_of(s1: Seq<usize>, s2: Seq<usize>) -> Seq<usize> {
    let n = vstd::math::max(s1.len() as int, s2.len() as int);
    Seq::new(
        n as nat,
        |j: int|
            if rdim(s1, n - 1 - j) >= rdim(s2, n - 1 - j) {
                rdim(s1, n - 1 - j)
            } else {
                rdim(s2, n - 1 - j)
            },
    )
}

/// Strides that a tensor of shape `shape` and strides `strides` takes when it is viewed
/// with the (longer or equal) shape `new_shape`: the new leading dimensions and the
/// dimensions of size 1 repeat their data (stride 0), the others keep their stride.
pub open spec fn broadcast_strides(
    shape: Seq<usize>,
    strides: Seq<usize>,
    new_shape: Seq<usize>,
) -> Seq<usize> {
    let n = new_shape.len() as int;
    Seq::new(
        new_shape.len(),
        |j: int|
            {
                let t = n - 1 - j;
                if t >= shape.len() || rdim(shape, t) == 1 {
                    0usize
                } else {
                    strides[shape.len() - 1 - t]
                }
            },
    )
}

/// Strides where every element sits after the previous one: all positive and non-increasing.
pub open spec fn strides_ordered(strides: Seq<usize>) -> bool {
    &&& forall|i: int| 0 <= i < strides.len() ==> #[trigger] strides[i] > 0
    &&& forall|i: int| 0 <= i < strides.len() - 1 ==> #[trigger] strides[i] >= strides[i + 1]
}

// ---------------------------------------------------------------------------
// Lemmas on the model
// ---------------------------------------------------------------------------

pub proof fn lemma_size_nonneg(shape: Seq<usize>)
    ensures
        size(shape) >= 0,
    decreases shape.len(),
{
    if shape.len() > 0 {
        lemma_size_nonneg(shape.drop_last());
        lemma_mul_nonnegative(size(shape.drop_last()), shape.last() as int);
    }
}

pub proof fn lemma_size_positive(shape: Seq<usize>)
    requires
        nonzero_dims(shape),
    ensures
        size(shape) > 0,
    decreases shape.len(),
{
    if shape.len() > 0 {
        lemma_size_positive(shape.drop_last());
        assert(shape.last() > 0);
        lemma_mul_strictly_positive(size(shape.drop_last()), shape.last() as int);
    }
}

/// The size of a shape splits at its first dimension.
pub proof fn lemma_size_first(shape: Seq<usize>)
    requires
        shape.len() > 0,
    ensures
        size(shape) == (shape[0] as int) * size(shape.drop_first()),
    decreases shape.len(),
{
    if shape.len() == 1 {
        assert(shape.drop_last().len() == 0);
        assert(shape.drop_first().len() == 0);
        assert(size(shape.drop_last()) == 1);
        assert(size(shape.drop_first()) == 1);
    } else {
        let init = shape.drop_last();
        lemma_size_first(init);
        assert(init.drop_first() =~= shape.drop_first().drop_last());
        assert(shape.drop_first().last() == shape.last());
        assert(size(shape.drop_first()) == size(init.drop_first()) * (shape.last() as int));
        assert(size(shape) == size(init) * (shape.last() as int));
        lemma_mul_is_associative(shape[0] as int, size(init.drop_first()), shape.last() as int);
    }
}

/// Suffix sizes: each is the dimension times the next one.
pub proof fn lemma_suffix_size_step(shape: Seq<usize>, i: int)
    requires
        0 <= i < shape.len(),
    ensures
        suffix_size(shape, i) == (shape[i] as int) * suffix_size(shape, i + 1),
{
    let s = shape.subrange(i, shape.len() as int);
    lemma_size_first(s);
    assert(s.drop_first() =~= shape.subrange(i + 1, shape.len() as int));
}

pub proof fn lemma_suffix_size_end(shape: Seq<usize>)
    ensures
        suffix_size(shape, shape.len() as int) == 1,
{
    assert(shape.subrange(shape.len() as int, shape.len() as int).len() == 0);
}

pub proof fn lemma_suffix_size_full(shape: Seq<usize>)
    ensures
        suffix_size(shape, 0) == size(shape),
{
    assert(shape.subrange(0, shape.len() as int) =~= shape);
}

/// With nonzero dimensions, suffix sizes only shrink to the right.
pub proof fn lemma_suffix_size_mono(shape: Seq<usize>, i: int, j: int)
    requires
        nonzero_dims(shape),
        0 <= i <= j <= shape.len(),
    ensures
        suffix_size(shape, j) <= suffix_size(shape, i),
        suffix_size(shape, j) > 0,
    decreases j - i,
{
    if i == j {
        lemma_size_positive(shape.subrange(j, shape.len() as int));
    } else {
        lemma_suffix_size_mono(shape, i + 1, j);
        lemma_suffix_size_step(shape, i);
        assert(shape[i] >= 1);
        lemma_mul_inequality(1, shape[i] as int, suffix_size(shape, i + 1));
    }
}

/// Coordinates have one entry per dimension.
pub proof fn lemma_unravel_len(shape: Seq<usize>, k: int)
    ensures
        unravel(shape, k).len() == shape.len(),
    decreases shape.len(),
{
    if shape.len() > 0 {
        lemma_unravel_len(shape.drop_last(), k / (shape.last() as int));
    }
}

/// The coordinates of a nonnegative position lie inside the shape.
pub proof fn lemma_unravel_in_bounds(shape: Seq<usize>, k: int)
    requires
        nonzero_dims(shape),
        k >= 0,
    ensures
        in_bounds(unravel(shape, k), shape),
    decreases shape.len(),
{
    lemma_unravel_len(shape, k);
    if shape.len() > 0 {
        let l = shape.last() as int;
        assert(l > 0);
        lemma_div_pos_is_pos(k, l);
        lemma_unravel_in_bounds(shape.drop_last(), k / l);
        lemma_mod_bound(k, l);
        let u = unravel(shape, k);
        assert forall|i: int| 0 <= i < u.len() implies 0 <= #[trigger] u[i] < shape[i] by {
            if i < shape.len() - 1 {
                assert(u[i] == unravel(shape.drop_last(), k / l)[i]);
            }
        }
    }
}

/// Offsets of in-bounds coordinates are nonnegative and at most the last element's offset.
pub proof fn lemma_offset_bounds(idx: Seq<int>, shape: Seq<usize>, strides: Seq<usize>)
    requires
        in_bounds(idx, shape),
        strides.len() == shape.len(),
    ensures
        0 <= offset(idx, strides) <= max_offset(shape, strides),
    decreases idx.len(),
{
    if idx.len() > 0 {
        let n = idx.len() - 1;
        lemma_offset_bounds(idx.drop_last(), shape.drop_last(), strides.drop_last());
        assert(last_index(shape).drop_last() =~= last_index(shape.drop_last()));
        assert(idx[n] <= shape[n] - 1);
        lemma_mul_inequality(idx[n], shape[n] - 1, strides[n] as int);
        lemma_mul_nonnegative(idx[n], strides[n] as int);
    }
}

/// Row-major rank of the coordinates `idx` in `shape` (the inverse of `unravel`).
pub open spec fn ravel(shape: Seq<usize>, idx: Seq<int>) -> int
    decreases shape.len(),
{
    if shape.len() == 0 || idx.len() == 0 {
        0
    } else {
        ravel(shape.drop_last(), idx.drop_last()) * (shape.last() as int) + idx.last()
    }
}

/// The coordinates of the last dimensions depend on those dimensions alone.
pub proof fn lemma_unravel_suffix(p: Seq<usize>, s: Seq<usize>, k: int)
    ensures
        unravel(p + s, k).len() == p.len() + s.len(),
        unravel(p + s, k).subrange(p.len() as int, (p.len() + s.len()) as int) == unravel(s, k),
    decreases s.len(),
{
    lemma_unravel_len(p + s, k);
    lemma_unravel_len(s, k);
    if s.len() == 0 {
        assert(p + s =~= p);
        assert(unravel(p + s, k).subrange(p.len() as int, p.len() as int) =~= unravel(s, k));
    } else {
        let l = s.last() as int;
        let s0 = s.drop_last();
        lemma_unravel_suffix(p, s0, k / l);
        assert((p + s).drop_last() =~= p + s0);
        assert((p + s).last() == s.last());
        lemma_unravel_len(p + s0, k / l);
        assert(unravel(p + s, k).subrange(p.len() as int, (p.len() + s.len()) as int) =~= unravel(
            p + s0,
            k / l,
        ).subrange(p.len() as int, (p.len() + s0.len()) as int).push(k % l));
    }
}

/// A position below the size unravels and ravels back to itself.
pub proof fn lemma_ravel_unravel(shape: Seq<usize>, k: int)
    requires
        nonzero_dims(shape),
        0 <= k < size(shape),
    ensures
        ravel(shape, unravel(shape, k)) == k,
    decreases shape.len(),
{
    if shape.len() > 0 {
        let init = shape.drop_last();
        let l = shape.last() as int;
        assert(l > 0);
        lemma_size_positive(init);
        lemma_fundamental_div_mod(k, l);
        lemma_mod_bound(k, l);
        lemma_div_pos_is_pos(k, l);
        if k / l >= size(init) {
            lemma_mul_inequality(size(init), k / l, l);
            lemma_mul_is_commutative(l, k / l);
        }
        lemma_ravel_unravel(init, k / l);
        let u = unravel(shape, k);
        assert(u.drop_last() =~= unravel(init, k / l));
        lemma_mul_is_commutative(l, k / l);
    } else {
        assert(size(shape) == 1);
    }
}

/// Scaling every stride scales the offset.
pub proof fn lemma_offset_scale(idx: Seq<int>, s1: Seq<usize>, s2: Seq<usize>, l: int)
    requires
        idx.len() == s1.len() == s2.len(),
        forall|i: int| 0 <= i < s1.len() ==> (#[trigger] s2[i] as int) == (s1[i] as int) * l,
    ensures
        offset(idx, s2) == offset(idx, s1) * l,
    decreases idx.len(),
{
    if idx.len() > 0 {
        lemma_offset_scale(idx.drop_last(), s1.drop_last(), s2.drop_last(), l);
        let n = idx.len() - 1;
        assert(s2[n] as int == (s1[n] as int) * l);
        lemma_mul_is_associative(idx[n], s1[n] as int, l);
        vstd::arithmetic::mul::lemma_mul_is_distributive_add_other_way(
            l,
            offset(idx.drop_last(), s1.drop_last()),
            idx[n] * (s1[n] as int),
        );
    }
}

/// Under the row-major strides, the offset of coordinates is their rank.
pub proof fn lemma_offset_contiguous(shape: Seq<usize>, idx: Seq<int>)
    requires
        nonzero_dims(shape),
        suffix_sizes_fit(shape),
        idx.len() == shape.len(),
    ensures
        offset(idx, contiguous_strides_usize(shape)) == ravel(shape, idx),
    decreases shape.len(),
{
    if shape.len() > 0 {
        let init = shape.drop_last();
        let l = shape.last() as int;
        let cs = contiguous_strides_usize(shape);
        let ci = contiguous_strides_usize(init);
        lemma_contiguous_strides_init(shape);
        assert forall|i: int| 1 <= i <= init.len() implies #[trigger] suffix_size(init, i)
            <= usize::MAX by {
            if i < init.len() {
                assert(suffix_size(shape, i) == suffix_size(init, i) * l);
                lemma_suffix_size_mono(init, i, init.len() as int);
                lemma_mul_inequality(1, l, suffix_size(init, i));
                lemma_mul_is_commutative(l, suffix_size(init, i));
            } else {
                lemma_suffix_size_end(init);
            }
        }
        lemma_offset_contiguous(init, idx.drop_last());
        assert forall|i: int| 0 <= i < ci.len() implies (#[trigger] cs.drop_last()[i] as int) == (
        ci[i] as int) * l by {
            assert(suffix_size(shape, i + 1) == suffix_size(init, i + 1) * l);
            lemma_suffix_size_mono(init, i + 1, init.len() as int);
        }
        lemma_offset_scale(idx.drop_last(), ci, cs.drop_last(), l);
        assert(cs.last() == 1usize);
    }
}

/// The strides are the row-major ones, except perhaps along dimensions of size 1, which
/// no in-bounds offset reads.
pub open spec fn row_major_up_to_units(shape: Seq<usize>, strides: Seq<usize>) -> bool {
    &&& strides.len() == shape.len()
    &&& forall|i: int|
        0 <= i < shape.len() && shape[i] != 1 ==> #[trigger] strides[i] == contiguous_strides_usize(
            shape,
        )[i]
}

/// Strides that differ only where the coordinate is 0 give the same offset.
pub proof fn lemma_offset_agree(idx: Seq<int>, s1: Seq<usize>, s2: Seq<usize>)
    requires
        idx.len() == s1.len(),
        idx.len() == s2.len(),
        forall|i: int| 0 <= i < idx.len() ==> #[trigger] idx[i] == 0 || s1[i] == s2[i],
    ensures
        offset(idx, s1) == offset(idx, s2),
    decreases idx.len(),
{
    if idx.len() > 0 {
        let m = idx.len() - 1;
        lemma_offset_agree(idx.drop_last(), s1.drop_last(), s2.drop_last());
        assert(idx[m] == 0 || s1[m] == s2[m]);
    }
}

/// With nonnegative coordinates, smaller strides give a smaller offset.
pub proof fn lemma_offset_mono(idx: Seq<int>, s1: Seq<usize>, s2: Seq<usize>)
    requires
        idx.len() == s1.len(),
        idx.len() == s2.len(),
        forall|i: int| 0 <= i < idx.len() ==> 0 <= #[trigger] idx[i],
        forall|i: int| 0 <= i < idx.len() ==> #[trigger] s1[i] <= s2[i],
    ensures
        0 <= offset(idx, s1) <= offset(idx, s2),
    decreases idx.len(),
{
    if idx.len() > 0 {
        let m = idx.len() - 1;
        lemma_offset_mono(idx.drop_last(), s1.drop_last(), s2.drop_last());
        let c = idx[m];
        let a = s1[m] as int;
        let b = s2[m] as int;
        assert(0 <= c * a <= c * b) by (nonlinear_arith)
            requires
                0 <= c,
                0 <= a <= b,
        ;
    }
}

/// Coordinates that differ in one place have offsets that differ by that place's stride.
pub proof fn lemma_offset_update(idx: Seq<int>, strides: Seq<usize>, i: int, c: int)
    requires
        idx.len() == strides.len(),
        0 <= i < idx.len(),
    ensures
        offset(idx.update(i, c), strides) == offset(idx, strides) + (c - idx[i]) * (
        strides[i] as int),
    decreases idx.len(),
{
    let n = idx.len() - 1;
    let u = idx.update(i, c);
    if i == n {
        assert(u.drop_last() =~= idx.drop_last());
        vstd::arithmetic::mul::lemma_mul_is_distributive_sub_other_way(
            strides[i] as int,
            c,
            idx[i],
        );
    } else {
        assert(u.drop_last() =~= idx.drop_last().update(i, c));
        lemma_offset_update(idx.drop_last(), strides.drop_last(), i, c);
    }
}

/// Ravel then unravel gives back in-bounds coordinates.
pub proof fn lemma_unravel_ravel(shape: Seq<usize>, idx: Seq<int>)
    requires
        in_bounds(idx, shape),
    ensures
        unravel(shape, ravel(shape, idx)) == idx,
    decreases shape.len(),
{
    if shape.len() > 0 {
        let init = shape.drop_last();
        let l = shape.last() as int;
        let n = idx.len() - 1;
        assert(0 <= idx[n] < l);
        let r0 = ravel(init, idx.drop_last());
        lemma_fundamental_div_mod_converse(r0 * l + idx[n], l, r0, idx[n]);
        lemma_unravel_ravel(init, idx.drop_last());
        assert(unravel(shape, ravel(shape, idx)) =~= idx);
    } else {
        assert(idx.len() == 0);
        assert(unravel(shape, ravel(shape, idx)) =~= idx);
    }
}

/// The size of a concatenation of shapes is the product of their sizes.
pub proof fn lemma_size_concat(p: Seq<usize>, q: Seq<usize>)
    ensures
        size(p + q) == size(p) * size(q),
    decreases q.len(),
{
    if q.len() == 0 {
        assert(p + q =~= p);
    } else {
        lemma_size_concat(p, q.drop_last());
        assert((p + q).drop_last() =~= p + q.drop_last());
        assert((p + q).last() == q.last());
        lemma_mul_is_associative(size(p), size(q.drop_last()), q.last() as int);
    }
}

/// The rank splits at any point of the shape: the rank of the prefix, scaled by the size
/// of the rest, plus the rank in the rest.
pub proof fn lemma_ravel_split(p: Seq<usize>, s: Seq<usize>, ip: Seq<int>, is: Seq<int>)
    requires
        ip.len() == p.len(),
        is.len() == s.len(),
    ensures
        ravel(p + s, ip + is) == ravel(p, ip) * size(s) + ravel(s, is),
    decreases s.len(),
{
    if s.len() == 0 {
        assert(p + s =~= p);
        assert(ip + is =~= ip);
    } else {
        let s0 = s.drop_last();
        let is0 = is.drop_last();
        lemma_ravel_split(p, s0, ip, is0);
        assert((p + s).drop_last() =~= p + s0);
        assert((ip + is).drop_last() =~= ip + is0);
        assert((p + s).last() == s.last());
        assert((ip + is).last() == is.last());
        let rp = ravel(p, ip);
        let r0 = ravel(s0, is0);
        let l = s.last() as int;
        let x = is.last();
        assert((rp * size(s0) + r0) * l + x == rp * (size(s0) * l) + (r0 * l + x)) by (nonlinear_arith);
    }
}

/// Ranks of in-bounds coordinates lie in `[0, size)`.
pub proof fn lemma_ravel_bounds(shape: Seq<usize>, idx: Seq<int>)
    requires
        in_bounds(idx, shape),
    ensures
        0 <= ravel(shape, idx) < size(shape),
    decreases shape.len(),
{
    if shape.len() > 0 {
        let init = shape.drop_last();
        let l = shape.last() as int;
        let n = idx.len() - 1;
        lemma_ravel_bounds(init, idx.drop_last());
        let r0 = ravel(init, idx.drop_last());
        lemma_mul_nonnegative(r0, l);
        lemma_mul_inequality(r0 + 1, size(init), l);
        vstd::arithmetic::mul::lemma_mul_is_distributive_add_other_way(l, r0, 1);
    }
}

/// The last coordinates have rank `size - 1`.
pub proof fn lemma_ravel_last(shape: Seq<usize>)
    requires
        nonzero_dims(shape),
    ensures
        ravel(shape, last_index(shape)) == size(shape) - 1,
    decreases shape.len(),
{
    if shape.len() > 0 {
        let init = shape.drop_last();
        let l = shape.last() as int;
        assert(last_index(shape).drop_last() =~= last_index(init));
        lemma_ravel_last(init);
        vstd::arithmetic::mul::lemma_mul_is_distributive_sub_other_way(l, size(init), 1);
    } else {
        assert(size(shape) == 1);
    }
}

/// Odometer step: increment the coordinate at `j` and reset every coordinate after it.
pub open spec fn step_at(idx: Seq<int>, j: int) -> Seq<int> {
    Seq::new(idx.len(), |t: int| if t < j { idx[t] } else if t == j { idx[t] + 1 } else { 0 })
}

/// The odometer step adds one to the rank, when every coordinate after `j` is at its
/// maximum and the one at `j` is not.
pub proof fn lemma_ravel_step(shape: Seq<usize>, idx: Seq<int>, j: int)
    requires
        in_bounds(idx, shape),
        0 <= j < shape.len(),
        idx[j] + 1 < shape[j],
        forall|t: int| j < t < shape.len() ==> #[trigger] idx[t] == shape[t] - 1,
    ensures
        ravel(shape, step_at(idx, j)) == ravel(shape, idx) + 1,
        in_bounds(step_at(idx, j), shape),
    decreases shape.len(),
{
    let n = shape.len() - 1;
    let init = shape.drop_last();
    let l = shape.last() as int;
    let st = step_at(idx, j);
    if j == n {
        assert(st.drop_last() =~= idx.drop_last());
    } else {
        assert(st.drop_last() =~= step_at(idx.drop_last(), j));
        lemma_ravel_step(init, idx.drop_last(), j);
        vstd::arithmetic::mul::lemma_mul_is_distributive_add_other_way(
            l,
            ravel(init, idx.drop_last()),
            1,
        );
    }
}

/// A zero dimension empties the shape.
pub proof fn lemma_size_zero(shape: Seq<usize>, j: int)
    requires
        0 <= j < shape.len(),
        shape[j] == 0,
    ensures
        size(shape) == 0,
    decreases shape.len(),
{
    let a = size(shape.drop_last());
    let b = shape.last() as int;
    if j < shape.len() - 1 {
        lemma_size_zero(shape.drop_last(), j);
        assert(a * b == 0) by (nonlinear_arith)
            requires
                a == 0,
        ;
    } else {
        assert(a * b == 0) by (nonlinear_arith)
            requires
                b == 0,
        ;
    }
}

/// The first element sits at coordinates all zero.
pub proof fn lemma_unravel_zero(shape: Seq<usize>)
    requires
        nonzero_dims(shape),
    ensures
        unravel(shape, 0) == Seq::new(shape.len(), |i: int| 0int),
    decreases shape.len(),
{
    if shape.len() > 0 {
        let l = shape.last() as int;
        assert(l > 0);
        assert(0int / l == 0) by (nonlinear_arith)
            requires
                l > 0,
        ;
        assert(0int % l == 0) by (nonlinear_arith)
            requires
                l > 0,
        ;
        lemma_unravel_zero(shape.drop_last());
        assert(unravel(shape, 0) =~= Seq::new(shape.len(), |i: int| 0int));
    } else {
        assert(unravel(shape, 0) =~= Seq::new(shape.len(), |i: int| 0int));
    }
}

/// All-zero coordinates sit at offset 0.
pub proof fn lemma_offset_zero(idx: Seq<int>, strides: Seq<usize>)
    requires
        forall|i: int| 0 <= i < idx.len() ==> #[trigger] idx[i] == 0,
    ensures
        offset(idx, strides) == 0,
    decreases idx.len(),
{
    if idx.len() > 0 && strides.len() > 0 {
        lemma_offset_zero(idx.drop_last(), strides.drop_last());
    }
}

/// The rank splits at the first dimension.
pub proof fn lemma_ravel_first(shape: Seq<usize>, idx: Seq<int>)
    requires
        shape.len() > 0,
        idx.len() == shape.len(),
    ensures
        ravel(shape, idx) == idx[0] * size(shape.drop_first()) + ravel(
            shape.drop_first(),
            idx.drop_first(),
        ),
    decreases shape.len(),
{
    if shape.len() == 1 {
        assert(shape.drop_first().len() == 0);
        assert(ravel(shape.drop_last(), idx.drop_last()) == 0);
        assert(size(shape.drop_first()) == 1);
    } else {
        let init = shape.drop_last();
        let l = shape.last() as int;
        lemma_ravel_first(init, idx.drop_last());
        assert(init.drop_first() =~= shape.drop_first().drop_last());
        assert(idx.drop_last().drop_first() =~= idx.drop_first().drop_last());
        let a = idx[0];
        let b = size(init.drop_first());
        let c = ravel(init.drop_first(), idx.drop_last().drop_first());
        assert(ravel(shape.drop_first(), idx.drop_first()) == c * l + idx.last());
        assert(size(shape.drop_first()) == b * l);
        assert((a * b + c) * l == a * (b * l) + c * l) by (nonlinear_arith);
    }
}

/// The `j`-th coordinate of the `k`-th element: the quotient by the sizes after `j`,
/// modulo the `j`-th dimension.
pub proof fn lemma_unravel_coord(shape: Seq<usize>, k: int, j: int)
    requires
        nonzero_dims(shape),
        k >= 0,
        0 <= j < shape.len(),
    ensures
        unravel(shape, k)[j] == (k / suffix_size(shape, j + 1)) % (shape[j] as int),
    decreases shape.len(),
{
    let n = shape.len() - 1;
    let l = shape.last() as int;
    assert(l > 0);
    lemma_unravel_len(shape.drop_last(), k / l);
    if j == n {
        lemma_suffix_size_end(shape);
        assert(k / 1 == k) by (nonlinear_arith);
    } else {
        let init = shape.drop_last();
        lemma_div_pos_is_pos(k, l);
        lemma_unravel_coord(init, k / l, j);
        lemma_contiguous_strides_init(shape);
        lemma_suffix_size_mono(init, j + 1, init.len() as int);
        lemma_div_denominator(k, l, suffix_size(init, j + 1));
        lemma_mul_is_commutative(l, suffix_size(init, j + 1));
    }
}

/// The size of a prefix, one dimension longer.
pub proof fn lemma_prefix_size_step(shape: Seq<usize>, i: int)
    requires
        0 <= i < shape.len(),
    ensures
        size(shape.subrange(0, i + 1)) == size(shape.subrange(0, i)) * (shape[i] as int),
{
    assert(shape.subrange(0, i + 1).drop_last() =~= shape.subrange(0, i));
}

/// With nonzero dimensions, a prefix is no larger than the whole shape.
pub proof fn lemma_prefix_size_mono(shape: Seq<usize>, i: int)
    requires
        nonzero_dims(shape),
        0 <= i <= shape.len(),
    ensures
        0 < size(shape.subrange(0, i)) <= size(shape),
    decreases shape.len() - i,
{
    if i == shape.len() {
        assert(shape.subrange(0, i) =~= shape);
        lemma_size_positive(shape);
    } else {
        lemma_prefix_size_mono(shape, i + 1);
        lemma_prefix_size_step(shape, i);
        lemma_size_positive(shape.subrange(0, i));
        lemma_mul_inequality(1, shape[i] as int, size(shape.subrange(0, i)));
        lemma_mul_is_commutative(shape[i] as int, size(shape.subrange(0, i)));
    }
}

/// A shape whose size fits in `usize` has every suffix size fit too.
pub proof fn lemma_suffix_sizes_fit(shape: Seq<usize>)
    requires
        nonzero_dims(shape),
        size(shape) <= usize::MAX,
    ensures
        suffix_sizes_fit(shape),
{
    assert forall|i: int| 1 <= i <= shape.len() implies #[trigger] suffix_size(shape, i)
        <= usize::MAX by {
        lemma_suffix_size_mono(shape, 0, i);
        lemma_suffix_size_full(shape);
    }
}

/// Under the row-major strides, the `k`-th element sits at position `k`; the last one at `size - 1`.
pub proof fn lemma_contiguous_layout(shape: Seq<usize>)
    requires
        nonzero_dims(shape),
        size(shape) <= usize::MAX,
    ensures
        forall|k: int|
            0 <= k < size(shape) ==> #[trigger] physical(shape, contiguous_strides_usize(shape), k)
                == k,
        max_offset(shape, contiguous_strides_usize(shape)) == size(shape) - 1,
        contiguous_strides_usize(shape).len() == shape.len(),
{
    lemma_suffix_sizes_fit(shape);
    assert forall|k: int| 0 <= k < size(shape) implies #[trigger] physical(
        shape,
        contiguous_strides_usize(shape),
        k,
    ) == k by {
        lemma_unravel_len(shape, k);
        lemma_offset_contiguous(shape, unravel(shape, k));
        lemma_ravel_unravel(shape, k);
    }
    lemma_offset_contiguous(shape, last_index(shape));
    lemma_ravel_last(shape);
}

/// Dropping one dimension from both coordinates and strides drops its term from the offset.
pub proof fn lemma_offset_remove(idx: Seq<int>, strides: Seq<usize>, j: int)
    requires
        idx.len() == strides.len(),
        0 <= j < idx.len(),
    ensures
        offset(idx, strides) == offset(idx.remove(j), strides.remove(j)) + idx[j] * (
        strides[j] as int),
    decreases idx.len(),
{
    let n = idx.len() - 1;
    if j == n {
        assert(idx.remove(j) =~= idx.drop_last());
        assert(strides.remove(j) =~= strides.drop_last());
    } else {
        lemma_offset_remove(idx.drop_last(), strides.drop_last(), j);
        assert(idx.remove(j).drop_last() =~= idx.drop_last().remove(j));
        assert(strides.remove(j).drop_last() =~= strides.drop_last().remove(j));
        assert(idx.remove(j).last() == idx.last());
        assert(strides.remove(j).last() == strides.last());
    }
}

/// `perm` lists each of `0..n` exactly once.
pub open spec fn is_perm(perm: Seq<usize>, n: int) -> bool {
    &&& perm.len() == n
    &&& forall|i: int| 0 <= i < n ==> #[trigger] perm[i] < n
    &&& forall|i: int, j: int| 0 <= i < n && 0 <= j < n && i != j ==> perm[i] != perm[j]
}

/// `s` reordered by `perm`: entry `i` is `s[perm[i]]`.
pub open spec fn permute<A>(s: Seq<A>, perm: Seq<usize>) -> Seq<A> {
    Seq::new(perm.len(), |i: int| s[perm[i] as int])
}

/// A permutation with the entry `j` taken out, the larger entries shifted down.
pub open spec fn perm_without(perm: Seq<usize>, j: int) -> Seq<usize> {
    Seq::new(
        (perm.len() - 1) as nat,
        |i: int|
            if perm[i] > j {
                (perm[i] - 1) as usize
            } else {
                perm[i]
            },
    )
}

/// Reordering coordinates and strides by the same permutation keeps the offset.
pub proof fn lemma_offset_permute(idx: Seq<int>, strides: Seq<usize>, perm: Seq<usize>)
    requires
        idx.len() == strides.len(),
        is_perm(perm, idx.len() as int),
    ensures
        offset(permute(idx, perm), permute(strides, perm)) == offset(idx, strides),
    decreases idx.len(),
{
    let n = idx.len() as int;
    if n > 0 {
        let j = perm[n - 1] as int;
        let p2 = perm_without(perm, j);
        assert(is_perm(p2, n - 1)) by {
            assert forall|i: int| 0 <= i < n - 1 implies #[trigger] p2[i] < n - 1 by {
                assert(perm[i] != perm[n - 1]);
            }
            assert forall|a: int, b: int| 0 <= a < n - 1 && 0 <= b < n - 1 && a != b implies p2[a]
                != p2[b] by {
                assert(perm[a] != perm[b]);
                assert(perm[a] != perm[n - 1]);
                assert(perm[b] != perm[n - 1]);
            }
        }
        lemma_offset_permute(idx.remove(j), strides.remove(j), p2);
        assert(permute(idx.remove(j), p2) =~= permute(idx, perm).drop_last()) by {
            assert forall|i: int| 0 <= i < n - 1 implies #[trigger] permute(idx.remove(j), p2)[i]
                == permute(idx, perm).drop_last()[i] by {
                assert(perm[i] != perm[n - 1]);
            }
        }
        assert(permute(strides.remove(j), p2) =~= permute(strides, perm).drop_last()) by {
            assert forall|i: int| 0 <= i < n - 1 implies #[trigger] permute(strides.remove(j), p2)[i]
                == permute(strides, perm).drop_last()[i] by {
                assert(perm[i] != perm[n - 1]);
            }
        }
        lemma_offset_remove(idx, strides, j);
    } else {
        assert(permute(idx, perm).len() == 0);
    }
}

/// Inserting a zero coordinate (any stride) keeps the offset.
pub proof fn lemma_offset_insert_zero(idx: Seq<int>, strides: Seq<usize>, j: int, s: usize)
    requires
        idx.len() == strides.len(),
        0 <= j <= idx.len(),
    ensures
        offset(idx.insert(j, 0), strides.insert(j, s)) == offset(idx, strides),
{
    lemma_offset_remove(idx.insert(j, 0), strides.insert(j, s), j);
    assert(idx.insert(j, 0)[j] == 0);
    assert(0 * (s as int) == 0);
    assert(idx.insert(j, 0).remove(j) =~= idx);
    assert(strides.insert(j, s).remove(j) =~= strides);
}

/// Coordinates in `new_shape` seen from a tensor of shape `shape` broadcast to it:
/// right-aligned, the dimensions of size 1 read coordinate 0.
pub open spec fn project(shape: Seq<usize>, new_shape: Seq<usize>, idx: Seq<int>) -> Seq<int> {
    let d = new_shape.len() - shape.len();
    Seq::new(shape.len(), |i: int| if shape[i] == 1 { 0 } else { idx[i + d] })
}

/// Reading broadcast coordinates with the broadcast strides is reading their projection.
pub proof fn lemma_offset_broadcast(
    shape: Seq<usize>,
    strides: Seq<usize>,
    new_shape: Seq<usize>,
    idx: Seq<int>,
)
    requires
        shape.len() == strides.len(),
        shape.len() <= new_shape.len(),
        idx.len() == new_shape.len(),
    ensures
        offset(idx, broadcast_strides(shape, strides, new_shape)) == offset(
            project(shape, new_shape, idx),
            strides,
        ),
    decreases new_shape.len(),
{
    let bs = broadcast_strides(shape, strides, new_shape);
    if new_shape.len() == 0 {
        assert(project(shape, new_shape, idx).len() == 0);
    } else if shape.len() == 0 {
        assert forall|i: int| 0 <= i < idx.len() implies #[trigger] bs[i] == 0usize by {}
        lemma_offset_zero_strides(idx, bs);
        assert(project(shape, new_shape, idx).len() == 0);
    } else {
        lemma_offset_broadcast(shape.drop_last(), strides.drop_last(), new_shape.drop_last(), idx.drop_last());
        assert(bs.drop_last() =~= broadcast_strides(
            shape.drop_last(),
            strides.drop_last(),
            new_shape.drop_last(),
        ));
        assert(project(shape, new_shape, idx).drop_last() =~= project(
            shape.drop_last(),
            new_shape.drop_last(),
            idx.drop_last(),
        ));
        let n = new_shape.len() - 1;
        let m = shape.len() - 1;
        assert(rdim(shape, 0) == shape[m]);
        let p = project(shape, new_shape, idx);
        if shape[m] == 1 {
            assert(bs[n] == 0usize);
            assert(p[m] == 0);
            assert(idx[n] * 0 == 0);
            assert(0 * (strides[m] as int) == 0);
        } else {
            assert(bs[n] == strides[m]);
            assert(p[m] == idx[n]);
        }
    }
}

/// Zero strides give offset 0.
pub proof fn lemma_offset_zero_strides(idx: Seq<int>, strides: Seq<usize>)
    requires
        forall|i: int| 0 <= i < strides.len() ==> #[trigger] strides[i] == 0usize,
    ensures
        offset(idx, strides) == 0,
    decreases idx.len(),
{
    if idx.len() > 0 && strides.len() > 0 {
        lemma_offset_zero_strides(idx.drop_last(), strides.drop_last());
    }
}

/// The size is the size without one dimension, times that dimension.
pub proof fn lemma_size_remove(shape: Seq<usize>, j: int)
    requires
        0 <= j < shape.len(),
    ensures
        size(shape) == size(shape.remove(j)) * (shape[j] as int),
    decreases shape.len(),
{
    let n = shape.len() - 1;
    if j == n {
        assert(shape.remove(j) =~= shape.drop_last());
    } else {
        lemma_size_remove(shape.drop_last(), j);
        assert(shape.remove(j).drop_last() =~= shape.drop_last().remove(j));
        assert(shape.remove(j).last() == shape.last());
        lemma_mul_is_associative(size(shape.drop_last().remove(j)), shape[j] as int, shape.last() as int);
        lemma_mul_is_associative(size(shape.drop_last().remove(j)), shape.last() as int, shape[j] as int);
        lemma_mul_is_commutative(shape[j] as int, shape.last() as int);
    }
}

/// Permuting the dimensions keeps the size.
pub proof fn lemma_size_permute(shape: Seq<usize>, perm: Seq<usize>)
    requires
        is_perm(perm, shape.len() as int),
    ensures
        size(permute(shape, perm)) == size(shape),
    decreases shape.len(),
{
    let n = shape.len() as int;
    if n > 0 {
        let j = perm[n - 1] as int;
        let p2 = perm_without(perm, j);
        assert(is_perm(p2, n - 1)) by {
            assert forall|i: int| 0 <= i < n - 1 implies #[trigger] p2[i] < n - 1 by {
                assert(perm[i] != perm[n - 1]);
            }
            assert forall|a: int, b: int| 0 <= a < n - 1 && 0 <= b < n - 1 && a != b implies p2[a]
                != p2[b] by {
                assert(perm[a] != perm[b]);
                assert(perm[a] != perm[n - 1]);
                assert(perm[b] != perm[n - 1]);
            }
        }
        lemma_size_permute(shape.remove(j), p2);
        assert(permute(shape.remove(j), p2) =~= permute(shape, perm).drop_last()) by {
            assert forall|i: int| 0 <= i < n - 1 implies #[trigger] permute(shape.remove(j), p2)[i]
                == permute(shape, perm).drop_last()[i] by {
                assert(perm[i] != perm[n - 1]);
            }
        }
        lemma_size_remove(shape, j);
    } else {
        assert(permute(shape, perm).len() == 0);
    }
}

/// A dimension of size 1 adds no coordinate: unraveling in the shape without it is
/// unraveling in the full shape, without the coordinate (always 0) at that place.
pub proof fn lemma_unravel_remove_unit(shape: Seq<usize>, k: int, j: int)
    requires
        0 <= j < shape.len(),
        shape[j] == 1,
    ensures
        unravel(shape.remove(j), k) == unravel(shape, k).remove(j),
        unravel(shape, k)[j] == 0,
    decreases shape.len(),
{
    let n = shape.len() - 1;
    let l = shape.last() as int;
    lemma_unravel_len(shape, k);
    lemma_unravel_len(shape.drop_last(), k / l);
    if j == n {
        assert(shape.remove(j) =~= shape.drop_last());
        assert(k / 1 == k) by (nonlinear_arith);
        assert(k % 1 == 0) by (nonlinear_arith);
        assert(unravel(shape, k).remove(j) =~= unravel(shape.drop_last(), k));
    } else {
        lemma_unravel_remove_unit(shape.drop_last(), k / l, j);
        assert(shape.remove(j).drop_last() =~= shape.drop_last().remove(j));
        assert(shape.remove(j).last() == shape.last());
        lemma_unravel_len(shape.remove(j), k);
        assert(unravel(shape.remove(j), k) =~= unravel(shape, k).remove(j));
    }
}

/// Size is unchanged by removing a dimension of size 1.
pub proof fn lemma_size_remove_unit(shape: Seq<usize>, j: int)
    requires
        0 <= j < shape.len(),
        shape[j] == 1,
    ensures
        size(shape.remove(j)) == size(shape),
    decreases shape.len(),
{
    let n = shape.len() - 1;
    if j == n {
        assert(shape.remove(j) =~= shape.drop_last());
    } else {
        lemma_size_remove_unit(shape.drop_last(), j);
        assert(shape.remove(j).drop_last() =~= shape.drop_last().remove(j));
    }
}

/// With nonnegative coordinates, the offset of a prefix is at most the full offset.
pub proof fn lemma_offset_prefix(idx: Seq<int>, strides: Seq<usize>, i: int)
    requires
        idx.len() == strides.len(),
        0 <= i <= idx.len(),
        forall|t: int| 0 <= t < idx.len() ==> #[trigger] idx[t] >= 0,
    ensures
        0 <= offset(idx.subrange(0, i), strides.subrange(0, i)) <= offset(idx, strides),
    decreases idx.len() - i,
{
    if i == idx.len() {
        assert(idx.subrange(0, i) =~= idx);
        assert(strides.subrange(0, i) =~= strides);
        lemma_offset_nonneg(idx, strides);
    } else {
        lemma_offset_prefix(idx, strides, i + 1);
        assert(idx.subrange(0, i + 1).drop_last() =~= idx.subrange(0, i));
        assert(strides.subrange(0, i + 1).drop_last() =~= strides.subrange(0, i));
        lemma_mul_nonnegative(idx[i], strides[i] as int);
        lemma_offset_nonneg(idx.subrange(0, i), strides.subrange(0, i));
    }
}

/// Nonnegative coordinates have a nonnegative offset.
pub proof fn lemma_offset_nonneg(idx: Seq<int>, strides: Seq<usize>)
    requires
        forall|t: int| 0 <= t < idx.len() ==> #[trigger] idx[t] >= 0,
    ensures
        offset(idx, strides) >= 0,
    decreases idx.len(),
{
    if idx.len() > 0 && strides.len() > 0 {
        lemma_offset_nonneg(idx.drop_last(), strides.drop_last());
        lemma_mul_nonnegative(idx.last(), strides.last() as int);
    }
}

/// A shape broadcast onto `new_shape` with result `new_shape`: every dimension of
/// `shape` is 1 or equal to its right-aligned partner, and `new_shape` is no shorter.
pub proof fn lemma_broadcast_onto(shape: Seq<usize>, new_shape: Seq<usize>)
    requires
        shapes_broadcastable(shape, new_shape),
        broadcast_of(shape, new_shape) == new_shape,
        nonzero_dims(shape),
    ensures
        shape.len() <= new_shape.len(),
        nonzero_dims(new_shape),
        forall|i: int|
            0 <= i < shape.len() ==> #[trigger] shape[i] == 1 || shape[i] == new_shape[i
                + new_shape.len() - shape.len()],
{
    let n = new_shape.len() as int;
    let m = shape.len() as int;
    assert(broadcast_of(shape, new_shape).len() == vstd::math::max(m, n));
    assert forall|j: int| 0 <= j < n implies #[trigger] new_shape[j] > 0 by {
        let t = n - 1 - j;
        assert(new_shape[j] == broadcast_of(shape, new_shape)[j]);
        if t < m {
            assert(shape[m - 1 - t] > 0);
        }
    }
    assert forall|i: int| 0 <= i < m implies #[trigger] shape[i] == 1 || shape[i] == new_shape[i
        + n - m] by {
        let t = m - 1 - i;
        assert(rdim(shape, t) == shape[i]);
        assert(rdim(new_shape, t) == new_shape[i + n - m]);
        assert(dims_broadcastable(rdim(shape, t), rdim(new_shape, t)));
        assert(new_shape[i + n - m] == broadcast_of(shape, new_shape)[i + n - m]);
    }
}

/// Broadcasting is symmetric.
pub proof fn lemma_broadcast_commutes(s1: Seq<usize>, s2: Seq<usize>)
    ensures
        shapes_broadcastable(s1, s2) == shapes_broadcastable(s2, s1),
        broadcast_of(s1, s2) == broadcast_of(s2, s1),
{
    let n = vstd::math::max(s1.len() as int, s2.len() as int);
    assert(n == vstd::math::max(s2.len() as int, s1.len() as int));
    assert(broadcast_of(s1, s2) =~= broadcast_of(s2, s1));
    if shapes_broadcastable(s1, s2) {
        assert forall|t: int| 0 <= t < n implies dims_broadcastable(#[trigger] rdim(s2, t), rdim(s1, t)) by {
            assert(dims_broadcastable(rdim(s1, t), rdim(s2, t)));
        }
    }
    if shapes_broadcastable(s2, s1) {
        assert forall|t: int| 0 <= t < n implies dims_broadcastable(#[trigger] rdim(s1, t), rdim(s2, t)) by {
            assert(dims_broadcastable(rdim(s2, t), rdim(s1, t)));
        }
    }
}

/// Each operand of a broadcast broadcasts onto the result.
pub proof fn lemma_broadcast_operand(s1: Seq<usize>, s2: Seq<usize>)
    requires
        shapes_broadcastable(s1, s2),
    ensures
        shapes_broadcastable(s1, broadcast_of(s1, s2)),
        broadcast_of(s1, broadcast_of(s1, s2)) == broadcast_of(s1, s2),
{
    let out = broadcast_of(s1, s2);
    let n = vstd::math::max(s1.len() as int, s2.len() as int);
    assert forall|t: int| 0 <= t < n implies rdim(out, t) == (if rdim(s1, t) >= rdim(s2, t) {
        rdim(s1, t)
    } else {
        rdim(s2, t)
    }) by {
        assert(out[n - 1 - t] == rdim(out, t));
    }
    assert forall|t: int| 0 <= t < n implies dims_broadcastable(#[trigger] rdim(s1, t), rdim(out, t)) by {
        assert(dims_broadcastable(rdim(s1, t), rdim(s2, t)));
    }
    assert(broadcast_of(s1, out) =~= out) by {
        assert forall|j: int| 0 <= j < n implies #[trigger] broadcast_of(s1, out)[j] == out[j] by {
            let t = n - 1 - j;
            assert(rdim(out, t) == out[j]);
        }
    }
}

/// Removing a dimension lowers the largest offset by that dimension's reach.
pub proof fn lemma_max_offset_remove(shape: Seq<usize>, strides: Seq<usize>, a: int)
    requires
        shape.len() == strides.len(),
        nonzero_dims(shape),
        0 <= a < shape.len(),
    ensures
        0 <= max_offset(shape.remove(a), strides.remove(a)) <= max_offset(shape, strides),
{
    lemma_offset_remove(last_index(shape), strides, a);
    assert(last_index(shape).remove(a) =~= last_index(shape.remove(a)));
    lemma_mul_nonnegative(shape[a] - 1, strides[a] as int);
    lemma_offset_nonneg(last_index(shape.remove(a)), strides.remove(a));
}

/// Reading along an axis: the coordinates with `j` inserted at `a` sit `j` strides
/// past the coordinates without the axis.
pub proof fn lemma_offset_lane(idx: Seq<int>, strides: Seq<usize>, a: int, j: int)
    requires
        idx.len() + 1 == strides.len(),
        0 <= a < strides.len(),
    ensures
        offset(idx.insert(a, j), strides) == offset(idx, strides.remove(a)) + j * (strides[a] as int),
{
    lemma_offset_remove(idx.insert(a, j), strides, a);
    assert(idx.insert(a, j).remove(a) =~= idx);
}

/// The row-major strides, when they fit in `usize`.
pub open spec fn contiguous_strides_usize(shape: Seq<usize>) -> Seq<usize> {
    Seq::new(shape.len(), |i: int| suffix_size(shape, i + 1) as usize)
}

/// Every suffix size of `shape` (past the first dimension) fits in `usize`.
pub open spec fn suffix_sizes_fit(shape: Seq<usize>) -> bool {
    forall|i: int| 1 <= i <= shape.len() ==> #[trigger] suffix_size(shape, i) <= usize::MAX
}

/// The row-major strides of a shape, cut at its last dimension, scale by that dimension.
pub proof fn lemma_contiguous_strides_init(shape: Seq<usize>)
    requires
        shape.len() > 0,
    ensures
        forall|j: int|
            1 <= j < shape.len() ==> #[trigger] suffix_size(shape, j) == suffix_size(
                shape.drop_last(),
                j,
            ) * (shape.last() as int),
        suffix_size(shape, shape.len() as int) == 1,
{
    lemma_suffix_size_end(shape);
    assert forall|j: int| 1 <= j < shape.len() implies #[trigger] suffix_size(shape, j)
        == suffix_size(shape.drop_last(), j) * (shape.last() as int) by {
        let s = shape.subrange(j, shape.len() as int);
        assert(s.drop_last() =~= shape.drop_last().subrange(j, shape.len() - 1));
    }
}

// ---------------------------------------------------------------------------
// Executable helpers
// ---------------------------------------------------------------------------

/// Broadcastable dimensions according to the broadcasting rules.
pub fn are_dimensions_broadcastable(d1: usize, d2: usize) -> (r: bool)
    ensures
        r == dims_broadcastable(d1, d2),
{
    (d1 == d2) || (d1 == 1) || (d2 == 1)
}

/// Returns the shape resulting from broadcasting `shape1` and `shape2`, or `None`
/// when they are incompatible.
pub fn broadcast_shape(shape1: &[usize], shape2: &[usize]) -> (r: Option<Vec<usize>>)
    ensures
        r is Some <==> shapes_broadcastable(shape1@, shape2@),
        r matches Some(out) ==> out@ == broadcast_of(shape1@, shape2@),
{
    let len: usize = if shape1.len() >= shape2.len() {
        shape1.len()
    } else {
        shape2.len()
    };
    let mut out: Vec<usize> = vec![1; len];
    let mut i: usize = 0;
    while i < len
        invariant
            len as int == vstd::math::max(shape1@.len() as int, shape2@.len() as int),
            out@.len() == len,
            i <= len,
            forall|t: int| 0 <= t < i ==> dims_broadcastable(#[trigger] rdim(shape1@, t), rdim(shape2@, t)),
            forall|j: int|
                len - i <= j < len ==> #[trigger] out@[j] == broadcast_of(shape1@, shape2@)[j],
        decreases len - i,
    {
        let d1: usize = if i < shape1.len() {
            shape1[shape1.len() - 1 - i]
        } else {
            1
        };
        let d2: usize = if i < shape2.len() {
            shape2[shape2.len() - 1 - i]
        } else {
            1
        };
        assert(d1 == rdim(shape1@, i as int));
        assert(d2 == rdim(shape2@, i as int));
        if !are_dimensions_broadcastable(d1, d2) {
            return None;
        }
        let m: usize = if d1 >= d2 {
            d1
        } else {
            d2
        };
        out.set(len - 1 - i, m);
        i += 1;
    }
    assert(out@ =~= broadcast_of(shape1@, shape2@));
    Some(out)
}

/// Returns the row-major strides for a contiguous tensor of the given shape.
pub fn strides_contiguous(shape: &[usize]) -> (r: Vec<usize>)
    requires
        suffix_sizes_fit(shape@),
    ensures
        r@ == contiguous_strides_usize(shape@),
        forall|i: int| 0 <= i < r@.len() ==> r@[i] as int == suffix_size(shape@, i + 1),
{
    if shape.len() == 0 {
        let r: Vec<usize> = Vec::new();
        assert(r@ =~= contiguous_strides_usize(shape@));
        return r;
    }
    let n = shape.len();
    let mut strides: Vec<usize> = vec![1; n];
    proof {
        lemma_suffix_size_end(shape@);
    }
    let mut i: usize = n - 1;
    while i > 0
        invariant
            n == shape@.len(),
            strides@.len() == n,
            0 <= i < n,
            suffix_sizes_fit(shape@),
            forall|j: int| i <= j < n ==> #[trigger] strides@[j] as int == suffix_size(shape@, j + 1),
        decreases i,
    {
        proof {
            lemma_suffix_size_step(shape@, i as int);
            lemma_suffix_size_nonneg(shape@, i as int + 1);
            vstd::arithmetic::mul::lemma_mul_is_commutative(
                shape@[i as int] as int,
                suffix_size(shape@, i as int + 1),
            );
        }
        let v: usize = strides[i] * shape[i];
        strides.set(i - 1, v);
        i -= 1;
    }
    assert(strides@ =~= contiguous_strides_usize(shape@));
    strides
}

pub proof fn lemma_suffix_size_nonneg(shape: Seq<usize>, i: int)
    ensures
        suffix_size(shape, i) >= 0,
{
    lemma_size_nonneg(shape.subrange(i, shape.len() as int));
}

/// Returns true when the strides are all positive and non-increasing.
pub fn is_data_contiguous(strides: &[usize]) -> (r: bool)
    ensures
        r == strides_ordered(strides@),
{
    let n = strides.len();
    let mut i: usize = 0;
    while i < n
        invariant
            n == strides@.len(),
            i <= n,
            forall|j: int| 0 <= j < i ==> #[trigger] strides@[j] > 0,
        decreases n - i,
    {
        if strides[i] == 0 {
            return false;
        }
        i += 1;
    }
    if n == 0 {
        return true;
    }
    let mut i: usize = 0;
    while i + 1 < n
        invariant
            n == strides@.len(),
            n > 0,
            i + 1 <= n,
            forall|j: int| 0 <= j < n ==> #[trigger] strides@[j] > 0,
            forall|j: int| 0 <= j < i ==> #[trigger] strides@[j] >= strides@[j + 1],
        decreases n - i,
    {
        if strides[i] < strides[i + 1] {
            return false;
        }
        i += 1;
    }
    true
}

// ---------------------------------------------------------------------------
// Laws
// ---------------------------------------------------------------------------

/// Broadcasting a shape with itself gives the same shape back.
pub proof fn law_broadcast_self(s: Seq<usize>)
    ensures
        shapes_broadcastable(s, s),
        broadcast_of(s, s) == s,
{
    assert(broadcast_of(s, s) =~= s) by {
        assert forall|j: int| 0 <= j < s.len() implies #[trigger] broadcast_of(s, s)[j] == s[j] by {
            assert(rdim(s, s.len() - 1 - j) == s[j]);
        }
    }
}

/// Broadcasting does not depend on the order of the operands.
pub proof fn law_broadcast_commutative(s1: Seq<usize>, s2: Seq<usize>)
    ensures
        shapes_broadcastable(s1, s2) == shapes_broadcastable(s2, s1),
        broadcast_of(s1, s2) == broadcast_of(s2, s1),
{
    lemma_broadcast_commutes(s1, s2);
}

/// The row-major strides of a shape with nonzero dimensions are ordered: a tensor
/// built with them is contiguous.
pub proof fn law_contiguous_strides_ordered(shape: Seq<usize>)
    requires
        nonzero_dims(shape),
        size(shape) <= usize::MAX,
    ensures
        strides_ordered(contiguous_strides_usize(shape)),
{
    lemma_suffix_sizes_fit(shape);
    let cs = contiguous_strides_usize(shape);
    assert forall|i: int| 0 <= i < cs.len() implies #[trigger] cs[i] > 0 by {
        lemma_suffix_size_mono(shape, i + 1, shape.len() as int);
    }
    assert forall|i: int| 0 <= i < cs.len() - 1 implies #[trigger] cs[i] >= cs[i + 1] by {
        lemma_suffix_size_mono(shape, i + 1, i + 2);
    }
}

/// Under the row-major strides, logical order is memory order: the `k`-th element is
/// stored at position `k`.
pub proof fn law_contiguous_layout_is_identity(shape: Seq<usize>, k: int)
    requires
        nonzero_dims(shape),
        size(shape) <= usize::MAX,
        0 <= k < size(shape),
    ensures
        physical(shape, contiguous_strides_usize(shape), k) == k,
{
    lemma_contiguous_layout(shape);
}

/// Every position below the size has its own coordinates, and they give it back.
pub proof fn law_unravel_ravel_roundtrip(shape: Seq<usize>, k: int)
    requires
        nonzero_dims(shape),
        0 <= k < size(shape),
    ensures
        in_bounds(unravel(shape, k), shape),
        ravel(shape, unravel(shape, k)) == k,
{
    lemma_unravel_in_bounds(shape, k);
    lemma_ravel_unravel(shape, k);
}

} // verus!
