//! The integer side of backpropagation through shape operations: which axes an expanded
//! gradient is summed over, and which permutation undoes a transpose.
use vstd::prelude::*;
use vstd::set_lib::{lemma_int_range, lemma_len_subset, lemma_map_size, set_int_range};
use crate::shape::{is_perm, permute};

verus! {

/// Dimension that the input of an expansion had at output position `x`: 0 for the new
/// leading positions, the input's own dimension (right-aligned) after them.
pub open spec fn input_dim(out_shape: Seq<usize>, a_shape: Seq<usize>, x: int) -> int {
    let extra = out_shape.len() - a_shape.len();
    if x < extra {
        0
    } else {
        a_shape[x - extra] as int
    }
}

/// The output positions whose dimension differs from the input's: the axes over which
/// the gradient of an expansion is summed.
pub open spec fn reduced_axis(out_shape: Seq<usize>, a_shape: Seq<usize>, x: int) -> bool {
    0 <= x < out_shape.len() && input_dim(out_shape, a_shape, x) != out_shape[x] as int
}

/// The axes over which the gradient of `expand` from `a_shape` to `out_shape` must be
/// summed, from the last to the first: the new leading axes and the axes where the input
/// had size 1.
pub fn expand_reduced_axes(out_shape: &[usize], a_shape: &[usize]) -> (r: Vec<usize>)
    requires
        a_shape@.len() <= out_shape@.len(),
    ensures
        forall|i: int, j: int| 0 <= i < j < r@.len() ==> r@[i] > r@[j],
        forall|x: int| r@.contains(x as usize) && 0 <= x <= usize::MAX <==> reduced_axis(
            out_shape@,
            a_shape@,
            x,
        ),
{
    let n = out_shape.len();
    let extra = n - a_shape.len();
    let mut axes: Vec<usize> = Vec::new();
    let mut i: usize = n;
    while i > 0
        invariant
            n == out_shape@.len(),
            extra == n - a_shape@.len(),
            i <= n,
            forall|p: int, q: int| 0 <= p < q < axes@.len() ==> axes@[p] > axes@[q],
            forall|p: int| 0 <= p < axes@.len() ==> axes@[p] >= i,
            forall|x: int|
                i <= x < n ==> (axes@.contains(x as usize) <==> reduced_axis(out_shape@, a_shape@, x)),
            forall|p: int| 0 <= p < axes@.len() ==> axes@[p] < n,
        decreases i,
    {
        let x = i - 1;
        let dim_a: usize = if x < extra {
            0
        } else {
            a_shape[x - extra]
        };
        let ghost old_axes = axes@;
        proof {
            assert(dim_a as int == input_dim(out_shape@, a_shape@, x as int));
        }
        if dim_a != out_shape[x] {
            axes.push(x);
        }
        proof {
            assert forall|y: int| x <= y < n implies (axes@.contains(y as usize) <==> reduced_axis(
                out_shape@,
                a_shape@,
                y,
            )) by {
                if y == x {
                    if dim_a != out_shape@[x as int] {
                        assert(axes@[axes@.len() - 1] == x);
                    } else {
                        assert(axes@ == old_axes);
                        if axes@.contains(y as usize) {
                            let p = choose|p: int| 0 <= p < axes@.len() && axes@[p] == y as usize;
                            assert(old_axes[p] >= i);
                        }
                    }
                } else {
                    if axes@.contains(y as usize) {
                        let p = choose|p: int| 0 <= p < axes@.len() && axes@[p] == y as usize;
                        if p < old_axes.len() {
                            assert(old_axes[p] == y as usize);
                        }
                    }
                    if old_axes.contains(y as usize) {
                        let p = choose|p: int| 0 <= p < old_axes.len() && old_axes[p] == y as usize;
                        assert(axes@[p] == y as usize);
                    }
                }
            }
        }
        i = x;
    }
    proof {
        assert forall|x: int| axes@.contains(x as usize) && 0 <= x <= usize::MAX implies reduced_axis(
            out_shape@,
            a_shape@,
            x,
        ) by {
            let p = choose|p: int| 0 <= p < axes@.len() && axes@[p] == x as usize;
        }
    }
    axes
}

/// The shape of a gradient summed over `axis`: the axis is dropped when it is one of the
/// `extra` new leading axes, and kept with size 1 otherwise.
pub open spec fn reduce_step(shape: Seq<usize>, axis: int, extra: int) -> Seq<usize> {
    if axis < extra {
        shape.remove(axis)
    } else {
        shape.update(axis, 1)
    }
}

/// The shape of a gradient summed over each of `axes` in turn.
pub open spec fn reduce_along(shape: Seq<usize>, axes: Seq<usize>, extra: int) -> Seq<usize>
    decreases axes.len(),
{
    if axes.len() == 0 {
        shape
    } else {
        reduce_along(reduce_step(shape, axes[0] as int, extra), axes.drop_first(), extra)
    }
}

/// `a_shape` expands to `out_shape`: right-aligned, each dimension equal or 1.
pub open spec fn expands_to(a_shape: Seq<usize>, out_shape: Seq<usize>) -> bool {
    &&& a_shape.len() <= out_shape.len()
    &&& forall|i: int|
        0 <= i < a_shape.len() ==> #[trigger] a_shape[i] == out_shape[i + out_shape.len() - a_shape.len()]
            || a_shape[i] == 1
}

/// The shape of the gradient once the axes from `y` on are summed: the output dimensions
/// before `y`, then the input's from there on.
spec fn partly_reduced(out_shape: Seq<usize>, a_shape: Seq<usize>, y: int) -> Seq<usize> {
    let extra = out_shape.len() - a_shape.len();
    out_shape.subrange(0, y) + a_shape.subrange(if y > extra { y - extra } else { 0 }, a_shape.len() as int)
}

proof fn lemma_partly_reduced_skip(out_shape: Seq<usize>, a_shape: Seq<usize>, lo: int, y: int)
    requires
        expands_to(a_shape, out_shape),
        crate::shape::nonzero_dims(out_shape),
        0 <= lo <= y <= out_shape.len(),
        forall|x: int| lo <= x < y ==> !reduced_axis(out_shape, a_shape, x),
    ensures
        partly_reduced(out_shape, a_shape, y) == partly_reduced(out_shape, a_shape, lo),
{
    let extra = out_shape.len() - a_shape.len();
    if lo < y {
        assert(!reduced_axis(out_shape, a_shape, lo));
        assert(lo >= extra);
        assert forall|x: int| lo <= x < y implies out_shape[x] == a_shape[x - extra] by {
            assert(!reduced_axis(out_shape, a_shape, x));
        }
        assert(partly_reduced(out_shape, a_shape, y) =~= partly_reduced(out_shape, a_shape, lo));
    }
}

proof fn lemma_partly_reduced_step(out_shape: Seq<usize>, a_shape: Seq<usize>, x0: int)
    requires
        expands_to(a_shape, out_shape),
        reduced_axis(out_shape, a_shape, x0),
    ensures
        reduce_step(partly_reduced(out_shape, a_shape, x0 + 1), x0, out_shape.len() - a_shape.len())
            == partly_reduced(out_shape, a_shape, x0),
{
    let extra = out_shape.len() - a_shape.len();
    if x0 >= extra {
        assert(a_shape[x0 - extra] == 1);
    }
    assert(reduce_step(partly_reduced(out_shape, a_shape, x0 + 1), x0, extra) =~= partly_reduced(
        out_shape,
        a_shape,
        x0,
    ));
}

proof fn lemma_reduce_rest(out_shape: Seq<usize>, a_shape: Seq<usize>, axes: Seq<usize>, m: int)
    requires
        expands_to(a_shape, out_shape),
        crate::shape::nonzero_dims(out_shape),
        out_shape.len() <= usize::MAX,
        forall|i: int, j: int| 0 <= i < j < axes.len() ==> axes[i] > axes[j],
        forall|x: int| axes.contains(x as usize) && 0 <= x <= usize::MAX <==> reduced_axis(out_shape, a_shape, x),
        0 <= m <= axes.len(),
    ensures
        reduce_along(
            partly_reduced(out_shape, a_shape, if m == 0 { out_shape.len() as int } else { axes[m - 1] as int }),
            axes.subrange(m, axes.len() as int),
            out_shape.len() - a_shape.len(),
        ) == a_shape,
    decreases axes.len() - m,
{
    let extra = out_shape.len() - a_shape.len();
    let y = if m == 0 { out_shape.len() as int } else { axes[m - 1] as int };
    if m > 0 {
        assert(axes.contains(axes[m - 1]));
        assert(reduced_axis(out_shape, a_shape, axes[m - 1] as int));
    }
    if m == axes.len() {
        assert forall|x: int| 0 <= x < y implies !reduced_axis(out_shape, a_shape, x) by {
            if reduced_axis(out_shape, a_shape, x) {
                assert(axes.contains(x as usize));
                let q = choose|q: int| 0 <= q < axes.len() && axes[q] == x as usize;
                if q >= m - 1 {
                    assert(q < m);
                }
            }
        }
        lemma_partly_reduced_skip(out_shape, a_shape, 0, y);
        assert(partly_reduced(out_shape, a_shape, 0) =~= a_shape);
        assert(axes.subrange(m, axes.len() as int) =~= Seq::<usize>::empty());
    } else {
        let x0 = axes[m] as int;
        assert(axes.contains(axes[m]));
        assert(reduced_axis(out_shape, a_shape, x0));
        if m > 0 {
            assert(axes[m - 1] > axes[m]);
        }
        assert forall|x: int| x0 + 1 <= x < y implies !reduced_axis(out_shape, a_shape, x) by {
            if reduced_axis(out_shape, a_shape, x) {
                assert(axes.contains(x as usize));
                let q = choose|q: int| 0 <= q < axes.len() && axes[q] == x as usize;
                if q >= m {
                    if q > m {
                        assert(axes[m] > axes[q]);
                    }
                } else if q < m - 1 {
                    assert(axes[q] > axes[m - 1]);
                }
            }
        }
        lemma_partly_reduced_skip(out_shape, a_shape, x0 + 1, y);
        lemma_partly_reduced_step(out_shape, a_shape, x0);
        lemma_reduce_rest(out_shape, a_shape, axes, m + 1);
        assert(axes.subrange(m, axes.len() as int).drop_first() =~= axes.subrange(m + 1, axes.len() as int));
        assert(axes.subrange(m, axes.len() as int)[0] == axes[m]);
    }
}

/// Summing the gradient of an expansion over the axes that `expand_reduced_axes` gives,
/// in its order, brings it back to the shape before the expansion.
pub proof fn law_expand_reduction_restores_shape(out_shape: Seq<usize>, a_shape: Seq<usize>, axes: Seq<usize>)
    requires
        expands_to(a_shape, out_shape),
        crate::shape::nonzero_dims(out_shape),
        out_shape.len() <= usize::MAX,
        forall|i: int, j: int| 0 <= i < j < axes.len() ==> axes[i] > axes[j],
        forall|x: int| axes.contains(x as usize) && 0 <= x <= usize::MAX <==> reduced_axis(out_shape, a_shape, x),
    ensures
        reduce_along(out_shape, axes, out_shape.len() - a_shape.len()) == a_shape,
{
    lemma_reduce_rest(out_shape, a_shape, axes, 0);
    assert(partly_reduced(out_shape, a_shape, out_shape.len() as int) =~= out_shape);
    assert(axes.subrange(0, axes.len() as int) =~= axes);
}

/// Input dimension `i` and output dimension `j` have the same size and stride.
pub open spec fn dims_match(
    a_shape: Seq<usize>,
    a_strides: Seq<usize>,
    out_shape: Seq<usize>,
    out_strides: Seq<usize>,
    i: int,
    j: int,
) -> bool {
    out_shape[j] == a_shape[i] && out_strides[j] == a_strides[i]
}

/// `p` is what the greedy matching makes of the first `p.len()` input dimensions: each
/// goes to the first output dimension with the same size and stride not taken before.
pub open spec fn greedy_prefix(
    a_shape: Seq<usize>,
    a_strides: Seq<usize>,
    out_shape: Seq<usize>,
    out_strides: Seq<usize>,
    p: Seq<usize>,
) -> bool {
    &&& p.len() <= a_shape.len()
    &&& forall|i: int|
        #![trigger p[i]]
        0 <= i < p.len() ==> {
            &&& p[i] < out_shape.len()
            &&& dims_match(a_shape, a_strides, out_shape, out_strides, i, p[i] as int)
            &&& !p.subrange(0, i).contains(p[i])
            &&& forall|j: int|
                0 <= j < p[i] && dims_match(a_shape, a_strides, out_shape, out_strides, i, j)
                    ==> p.subrange(0, i).contains(j as usize)
        }
}

/// The permutation that undoes a transpose, from the tensor before it (`a`) and after it
/// (`out`): input dimension `i` is matched to the first output dimension not matched yet
/// with the same size and stride. `None` when some input dimension finds no match.
pub fn transpose_inverse_perm(
    a_shape: &[usize],
    a_strides: &[usize],
    out_shape: &[usize],
    out_strides: &[usize],
) -> (r: Option<Vec<usize>>)
    requires
        a_shape@.len() == a_strides@.len(),
        out_shape@.len() == out_strides@.len(),
    ensures
        r matches Some(p) ==> p@.len() == a_shape@.len() && greedy_prefix(
            a_shape@,
            a_strides@,
            out_shape@,
            out_strides@,
            p@,
        ),
        r is None ==> exists|p: Seq<usize>|
            {
                &&& greedy_prefix(a_shape@, a_strides@, out_shape@, out_strides@, p)
                &&& p.len() < a_shape@.len()
                &&& forall|j: int|
                    0 <= j < out_shape@.len() && dims_match(
                        a_shape@,
                        a_strides@,
                        out_shape@,
                        out_strides@,
                        p.len() as int,
                        j,
                    ) ==> p.contains(j as usize)
            },
        (exists|perm: Seq<usize>|
            is_perm(perm, a_shape@.len() as int) && out_shape@ == permute(a_shape@, perm)
                && out_strides@ == permute(a_strides@, perm)) ==> r is Some,
        out_shape@.len() == a_shape@.len() ==> (r matches Some(p) ==> is_perm(p@, a_shape@.len() as int)),
{
    let n_out = out_shape.len();
    let n_a = a_shape.len();
    let mut used: Vec<bool> = Vec::new();
    let mut k: usize = 0;
    while k < n_out
        invariant
            k <= n_out,
            used@.len() == k,
            forall|j: int| 0 <= j < k ==> !used@[j],
        decreases n_out - k,
    {
        used.push(false);
        k += 1;
    }
    let mut perm: Vec<usize> = Vec::new();
    let mut i: usize = 0;
    while i < n_a
        invariant
            n_a == a_shape@.len(),
            n_a == a_strides@.len(),
            n_out == out_shape@.len(),
            n_out == out_strides@.len(),
            i <= n_a,
            perm@.len() == i,
            used@.len() == n_out,
            greedy_prefix(a_shape@, a_strides@, out_shape@, out_strides@, perm@),
            forall|j: int| 0 <= j < n_out ==> (#[trigger] used@[j] <==> perm@.contains(j as usize)),
        decreases n_a - i,
    {
        let mut j: usize = 0;
        while j < n_out && !(!used[j] && out_shape[j] == a_shape[i] && out_strides[j] == a_strides[i])
            invariant
                n_a == a_shape@.len(),
                n_a == a_strides@.len(),
                n_out == out_shape@.len(),
                n_out == out_strides@.len(),
                i < n_a,
                j <= n_out,
                used@.len() == n_out,
                forall|q: int|
                    0 <= q < j && dims_match(a_shape@, a_strides@, out_shape@, out_strides@, i as int, q)
                        ==> used@[q],
            decreases n_out - j,
        {
            j += 1;
        }
        if j == n_out {
            proof {
                assert(perm@.len() < a_shape@.len());
                assert forall|q: int|
                    0 <= q < out_shape@.len() && dims_match(
                        a_shape@,
                        a_strides@,
                        out_shape@,
                        out_strides@,
                        perm@.len() as int,
                        q,
                    ) implies perm@.contains(q as usize) by {
                    assert(used@[q]);
                }
                if exists|pm: Seq<usize>|
                    is_perm(pm, a_shape@.len() as int) && out_shape@ == permute(a_shape@, pm)
                        && out_strides@ == permute(a_strides@, pm) {
                    let pm = choose|pm: Seq<usize>|
                        is_perm(pm, a_shape@.len() as int) && out_shape@ == permute(a_shape@, pm)
                            && out_strides@ == permute(a_strides@, pm);
                    law_transpose_inverse_found(a_shape@, a_strides@, pm, perm@);
                    let jj = choose|jj: int|
                        0 <= jj < a_shape@.len() && dims_match(
                            a_shape@,
                            a_strides@,
                            permute(a_shape@, pm),
                            permute(a_strides@, pm),
                            perm@.len() as int,
                            jj,
                        ) && forall|t: int| 0 <= t < perm@.len() ==> perm@[t] as int != jj;
                    assert(used@[jj]);
                    let t = choose|t: int| 0 <= t < perm@.len() && perm@[t] == jj as usize;
                    assert(perm@[t] as int != jj);
                    assert(false);
                }
            }
            return None;
        }
        let ghost old_perm = perm@;
        let ghost old_used = used@;
        proof {
            assert(!old_perm.contains(j));
            assert(old_perm =~= perm@.push(j).subrange(0, i as int));
        }
        used.set(j, true);
        perm.push(j);
        proof {
            let p = perm@;
            assert(p.subrange(0, i as int) =~= old_perm);
            assert forall|t: int| 0 <= t < p.len() implies {
                &&& p[t] < out_shape@.len()
                &&& dims_match(a_shape@, a_strides@, out_shape@, out_strides@, t, p[t] as int)
                &&& !p.subrange(0, t).contains(p[t])
                &&& forall|q: int|
                    0 <= q < p[t] && dims_match(a_shape@, a_strides@, out_shape@, out_strides@, t, q)
                        ==> p.subrange(0, t).contains(q as usize)
            } by {
                if t < i {
                    assert(p[t] == old_perm[t]);
                    assert(p.subrange(0, t) =~= old_perm.subrange(0, t));
                } else {
                    assert(p[t] == j);
                    assert forall|q: int|
                        0 <= q < j && dims_match(a_shape@, a_strides@, out_shape@, out_strides@, t, q)
                            implies p.subrange(0, t).contains(q as usize) by {
                        assert(old_used[q]);
                        assert(old_perm.contains(q as usize));
                    }
                }
            }
            assert forall|q: int| 0 <= q < n_out implies (#[trigger] used@[q] <==> p.contains(
                q as usize,
            )) by {
                if q == j as int {
                    assert(p[p.len() - 1] == j);
                } else {
                    if p.contains(q as usize) {
                        let t = choose|t: int| 0 <= t < p.len() && p[t] == q as usize;
                        assert(t < i);
                        assert(old_perm[t] == q as usize);
                    }
                    if old_perm.contains(q as usize) {
                        let t = choose|t: int| 0 <= t < old_perm.len() && old_perm[t] == q as usize;
                        assert(p[t] == q as usize);
                    }
                }
            }
        }
        i += 1;
    }
    proof {
        if out_shape@.len() == a_shape@.len() {
            law_transpose_inverse_is_perm(a_shape@, a_strides@, out_shape@, out_strides@, perm@);
        }
    }
    Some(perm)
}

/// Applying the permutation found for a transpose to the transposed shape and strides
/// gives back the shape and strides before the transpose.
pub proof fn law_transpose_inverse_restores(
    a_shape: Seq<usize>,
    a_strides: Seq<usize>,
    out_shape: Seq<usize>,
    out_strides: Seq<usize>,
    p: Seq<usize>,
)
    requires
        p.len() == a_shape.len(),
        a_shape.len() == a_strides.len(),
        greedy_prefix(a_shape, a_strides, out_shape, out_strides, p),
    ensures
        crate::shape::permute(out_shape, p) == a_shape,
        crate::shape::permute(out_strides, p) == a_strides,
{
    assert(crate::shape::permute(out_shape, p) =~= a_shape) by {
        assert forall|i: int| 0 <= i < p.len() implies #[trigger] crate::shape::permute(out_shape, p)[i]
            == a_shape[i] by {
            assert(dims_match(a_shape, a_strides, out_shape, out_strides, i, p[i] as int));
        }
    }
    assert(crate::shape::permute(out_strides, p) =~= a_strides) by {
        assert forall|i: int| 0 <= i < p.len() implies #[trigger] crate::shape::permute(out_strides, p)[i]
            == a_strides[i] by {
            assert(dims_match(a_shape, a_strides, out_shape, out_strides, i, p[i] as int));
        }
    }
}

/// The matching that `transpose_inverse_perm` builds is a permutation once every input
/// dimension is matched and the two tensors have as many dimensions.
pub proof fn law_transpose_inverse_is_perm(
    a_shape: Seq<usize>,
    a_strides: Seq<usize>,
    out_shape: Seq<usize>,
    out_strides: Seq<usize>,
    p: Seq<usize>,
)
    requires
        p.len() == a_shape.len(),
        out_shape.len() == a_shape.len(),
        greedy_prefix(a_shape, a_strides, out_shape, out_strides, p),
    ensures
        is_perm(p, a_shape.len() as int),
{
    assert forall|i: int, j: int| 0 <= i < p.len() && 0 <= j < p.len() && i != j implies p[i] != p[j] by {
        if i < j {
            assert(p.subrange(0, j)[i] == p[i]);
            assert(!p.subrange(0, j).contains(p[j]));
        } else {
            assert(p.subrange(0, i)[j] == p[j]);
            assert(!p.subrange(0, i).contains(p[i]));
        }
    }
}

/// A permutation of `0..n` reaches every position of `0..n`.
proof fn lemma_perm_onto(perm: Seq<usize>, n: int, i: int)
    requires
        is_perm(perm, n),
        0 <= i < n,
    ensures
        exists|j: int| 0 <= j < n && perm[j] == i,
{
    let r = set_int_range(0, n);
    let f = |j: int| perm[j] as int;
    lemma_int_range(0, n);
    assert(vstd::relations::injective_on(f, r));
    let img = r.map(f);
    lemma_map_size(r, img, f);
    assert(img.subset_of(r)) by {
        assert forall|x: int| img.contains(x) implies r.contains(x) by {
            let j = choose|j: int| r.contains(j) && f(j) == x;
        }
    }
    vstd::set_lib::lemma_subset_equality(img, r);
    assert(img.contains(i));
    let j = choose|j: int| r.contains(j) && f(j) == i;
    assert(0 <= j < n && perm[j] == i);
}

/// On the shape and strides of a transpose, the matching of `transpose_inverse_perm` never
/// runs out: an input dimension left unmatched still finds an output dimension with its
/// size and stride that no earlier input dimension took.
pub proof fn law_transpose_inverse_found(
    a_shape: Seq<usize>,
    a_strides: Seq<usize>,
    perm: Seq<usize>,
    p: Seq<usize>,
)
    requires
        a_shape.len() == a_strides.len(),
        is_perm(perm, a_shape.len() as int),
        greedy_prefix(a_shape, a_strides, permute(a_shape, perm), permute(a_strides, perm), p),
        p.len() < a_shape.len(),
    ensures
        exists|j: int|
            0 <= j < a_shape.len() && dims_match(
                a_shape,
                a_strides,
                permute(a_shape, perm),
                permute(a_strides, perm),
                p.len() as int,
                j,
            ) && forall|t: int| 0 <= t < p.len() ==> p[t] as int != j,
{
    let n = a_shape.len() as int;
    let os = permute(a_shape, perm);
    let ost = permute(a_strides, perm);
    let i0 = p.len() as int;
    let key_a = |i: int| (a_shape[i], a_strides[i]);
    let key_o = |j: int| (os[j], ost[j]);
    let k = key_a(i0);
    let range = set_int_range(0, n);
    lemma_int_range(0, n);
    // the input dimensions with the key of `i0`, and the output dimensions with it
    let sa = Set::new(|i: int| 0 <= i < n && key_a(i) == k);
    let so = Set::new(|j: int| 0 <= j < n && key_o(j) == k);
    lemma_len_subset(sa, range);
    lemma_len_subset(so, range);
    // `perm` carries the output dimensions with the key onto the input ones
    let f = |j: int| perm[j] as int;
    assert(so.map(f) =~= sa) by {
        assert forall|i: int| sa.contains(i) implies so.map(f).contains(i) by {
            lemma_perm_onto(perm, n, i);
            let j = choose|j: int| 0 <= j < n && perm[j] == i;
            assert(so.contains(j) && f(j) == i);
        }
    }
    assert(vstd::relations::injective_on(f, so));
    lemma_map_size(so, sa, f);
    // the input dimensions before `i0` with the key, and where the matching put them
    let sb = Set::new(|t: int| 0 <= t < i0 && key_a(t) == k);
    assert(sb.subset_of(sa.remove(i0)));
    lemma_len_subset(sb, sa.remove(i0));
    let g = |t: int| p[t] as int;
    let sp = sb.map(g);
    assert(vstd::relations::injective_on(g, sb)) by {
        assert forall|t1: int, t2: int| sb.contains(t1) && sb.contains(t2) && g(t1) == g(t2) implies t1 == t2 by {
            if t1 < t2 {
                assert(p.subrange(0, t2)[t1] == p[t1]);
            } else if t2 < t1 {
                assert(p.subrange(0, t1)[t2] == p[t2]);
            }
        }
    }
    lemma_map_size(sb, sp, g);
    assert(sp.subset_of(so)) by {
        assert forall|j: int| sp.contains(j) implies so.contains(j) by {
            let t = choose|t: int| sb.contains(t) && g(t) == j;
            assert(dims_match(a_shape, a_strides, os, ost, t, p[t] as int));
        }
    }
    if so.subset_of(sp) {
        lemma_len_subset(so, sp);
        assert(false);
    }
    let j = choose|j: int| so.contains(j) && !sp.contains(j);
    assert(dims_match(a_shape, a_strides, os, ost, i0, j));
    assert forall|t: int| 0 <= t < p.len() implies p[t] as int != j by {
        if p[t] as int == j {
        assert(dims_match(a_shape, a_strides, os, ost, t, p[t] as int));
        assert(key_o(j) == k);
        assert(key_a(t) == key_o(j));
        assert(sb.contains(t));
        assert(sp.contains(g(t)));
        }
    }
}

} // verus!
