//! Broadcasting on flat, row-major data: output shape and index mapping.
use vstd::prelude::*;
use crate::shape::{
    broadcast_strides, contiguous_strides_usize, lemma_broadcast_onto, lemma_offset_broadcast,
    lemma_offset_contiguous, lemma_suffix_sizes_fit, physical, project, broadcast_of, dims_broadcastable, lemma_ravel_first, lemma_size_first, lemma_size_nonneg,
    lemma_suffix_size_end, lemma_suffix_size_mono, lemma_suffix_size_step, lemma_unravel_coord,
    lemma_unravel_in_bounds, lemma_unravel_len, lemma_unravel_suffix, lemma_size_zero, nonzero_dims, ravel, rdim, shapes_broadcastable,
    size, suffix_size, unravel,
};

verus! {

/// Checks whether two dimensions are compatible under broadcasting rules.
pub fn are_dimensions_compatible(d1: usize, d2: usize) -> (r: bool)
    ensures
        r == dims_broadcastable(d1, d2),
{
    (d1 == d2) || (d1 == 1) || (d2 == 1)
}

/// Computes the output shape of two broadcastable shapes.
pub fn get_broadcast_shape(shape1: &[usize], shape2: &[usize]) -> (r: Vec<usize>)
    requires
        shapes_broadcastable(shape1@, shape2@),
    ensures
        r@ == broadcast_of(shape1@, shape2@),
{
    let len: usize = if shape1.len() >= shape2.len() {
        shape1.len()
    } else {
        shape2.len()
    };
    let mut out: Vec<usize> = vec![1usize; len];
    let mut i: usize = 0;
    while i < len
        invariant
            len as int == vstd::math::max(shape1@.len() as int, shape2@.len() as int),
            out@.len() == len,
            i <= len,
            forall|j: int|
                len - i <= j < len ==> #[trigger] out@[j] == broadcast_of(shape1@, shape2@)[j],
        decreases len - i,
    {
        let d1: usize = if i < shape1.len() {
            shape1[shape1.len() - 1 - i]
        } else {
            1
        };
        let d2: usize = if i < shape2.len() {
            shape2[shape2.len() - 1 - i]
        } else {
            1
        };
        assert(d1 == rdim(shape1@, i as int));
        assert(d2 == rdim(shape2@, i as int));
        let m: usize = if d1 >= d2 {
            d1
        } else {
            d2
        };
        out.set(len - 1 - i, m);
        i += 1;
    }
    assert(out@ =~= broadcast_of(shape1@, shape2@));
    out
}

/// Whether the output dimension at `j` reads its own coordinate from the input:
/// the input has that dimension (right-aligned) and it is not 1.
pub open spec fn reads_dim(in_shape: Seq<usize>, out_len: int, j: int) -> bool {
    let t = out_len - 1 - j;
    t < in_shape.len() && rdim(in_shape, t) != 1
}

/// The input's data viewed with the output's dimensions: the output dimension where
/// the input reads it, 1 where the input repeats its data.
pub open spec fn read_shape(in_shape: Seq<usize>, out_shape: Seq<usize>) -> Seq<usize> {
    Seq::new(
        out_shape.len(),
        |j: int|
            if reads_dim(in_shape, out_shape.len() as int, j) {
                out_shape[j]
            } else {
                1usize
            },
    )
}

/// The output coordinates with the repeated dimensions pinned to 0.
pub open spec fn read_coords(in_shape: Seq<usize>, out_len: int, idx: Seq<int>) -> Seq<int> {
    Seq::new(
        idx.len(),
        |j: int|
            if reads_dim(in_shape, out_len, j) {
                idx[j]
            } else {
                0
            },
    )
}

/// Maps a flat output index to the corresponding flat index in the input shape,
/// accounting for broadcasting: the row-major rank of the output coordinates with the
/// dimensions that the input repeats pinned to 0. The running products of the output
/// dimensions, taken from the right, must fit in `usize`, and every dimension the input
/// reads must lie right of every zero output dimension.
pub fn get_broadcast_index(out_index: usize, in_shape: &[usize], out_shape: &[usize]) -> (r: usize)
    requires
        forall|j: int| 0 <= j <= out_shape@.len() ==> #[trigger] suffix_size(out_shape@, j) <= usize::MAX,
        forall|j: int|
            0 <= j < out_shape@.len() && reads_dim(in_shape@, out_shape@.len() as int, j)
                ==> #[trigger] suffix_size(out_shape@, j) > 0,
    ensures
        r as int == ravel(
            read_shape(in_shape@, out_shape@),
            read_coords(in_shape@, out_shape@.len() as int, unravel(out_shape@, out_index as int)),
        ),
{
    let n = out_shape.len();
    let ghost os = out_shape@;
    // the rightmost zero dimension, if any
    let mut zero: usize = 0;
    let mut found = false;
    let mut i: usize = 0;
    while i < n
        invariant
            n == os.len(),
            os == out_shape@,
            i <= n,
            found ==> zero < i && os[zero as int] == 0,
            forall|j: int| (if found { zero < j } else { 0 <= j }) && j < i ==> os[j] != 0,
        decreases n - i,
    {
        if out_shape[i] == 0 {
            zero = i;
            found = true;
        }
        i += 1;
    }
    if !found {
        proof {
            assert(nonzero_dims(os));
            crate::shape::lemma_suffix_size_full(os);
            assert(suffix_size(os, 0) <= usize::MAX);
        }
        return broadcast_index_nonzero(out_index, in_shape, out_shape);
    }
    let m = n - zero - 1;
    let il = in_shape.len();
    let cut: usize = if il > m { il - m } else { 0 };
    let tail = &out_shape[zero + 1..n];
    let tin = &in_shape[cut..il];
    let ghost pre = os.subrange(0, zero + 1);
    let ghost ins = in_shape@;
    proof {
        assert(os =~= pre + tail@);
        assert(nonzero_dims(tail@));
        assert(size(tail@) <= usize::MAX) by {
            assert(suffix_size(os, zero + 1) <= usize::MAX);
            assert(os.subrange(zero + 1, n as int) =~= tail@);
        }
    }
    let r = broadcast_index_nonzero(out_index, tin, tail);
    proof {
        let k = out_index as int;
        let zn = zero as int + 1;
        // no dimension left of the tail is read
        assert forall|j: int| 0 <= j < zn implies !reads_dim(ins, n as int, j) by {
            if reads_dim(ins, n as int, j) {
                assert(suffix_size(os, j) > 0);
                lemma_size_zero(os.subrange(j, n as int), zero - j);
            }
        }
        assert forall|j: int| 0 <= j < m implies reads_dim(tin@, m as int, j) == reads_dim(ins, n as int, j + zn) by {
            let t = m - 1 - j;
            if t < tin@.len() {
                assert(rdim(tin@, t) == rdim(ins, t));
            } else {
                assert(t >= ins.len());
            }
        }
        lemma_unravel_suffix(pre, tail@, k);
        let u = unravel(os, k);
        assert(read_shape(ins, os) =~= Seq::new(zn as nat, |j: int| 1usize) + read_shape(tin@, tail@));
        assert(read_coords(ins, n as int, u) =~= Seq::new(zn as nat, |j: int| 0int) + read_coords(
            tin@,
            m as int,
            unravel(tail@, k),
        )) by {
            assert forall|j: int| zn <= j < n implies u[j] == unravel(tail@, k)[j - zn] by {
                assert(u.subrange(zn, n as int)[j - zn] == u[j]);
            }
        }
        lemma_unravel_len(tail@, k);
        lemma_ravel_pad(read_shape(tin@, tail@), read_coords(tin@, m as int, unravel(tail@, k)), zn);
    }
    r
}

/// `get_broadcast_index` when no output dimension is zero.
fn broadcast_index_nonzero(out_index: usize, in_shape: &[usize], out_shape: &[usize]) -> (r: usize)
    requires
        nonzero_dims(out_shape@),
        size(out_shape@) <= usize::MAX,
    ensures
        r as int == ravel(
            read_shape(in_shape@, out_shape@),
            read_coords(in_shape@, out_shape@.len() as int, unravel(out_shape@, out_index as int)),
        ),
{
    let n = out_shape.len();
    let ghost os = out_shape@;
    let ghost rs = read_shape(in_shape@, os);
    let ghost u = unravel(os, out_index as int);
    let ghost rc = read_coords(in_shape@, n as int, u);
    proof {
        lemma_unravel_len(os, out_index as int);
        lemma_unravel_in_bounds(os, out_index as int);
        lemma_suffix_size_end(os);
        lemma_suffix_size_end(rs);
        assert(os.subrange(0, n as int) =~= os);
    }
    let mut in_index: usize = 0;
    let mut in_inner_size: usize = 1;
    let mut out_inner_size: usize = 1;
    let mut i: usize = 0;
    while i < n
        invariant
            n == os.len(),
            os == out_shape@,
            rs == read_shape(in_shape@, os),
            rc == read_coords(in_shape@, n as int, u),
            u == unravel(os, out_index as int),
            u.len() == n,
            nonzero_dims(os),
            size(os) <= usize::MAX,
            forall|t: int| 0 <= t < n ==> 0 <= #[trigger] u[t] < os[t],
            i <= n,
            out_inner_size as int == suffix_size(os, n - i),
            in_inner_size as int == suffix_size(rs, n - i),
            in_index as int == ravel(
                rs.subrange(n - i, n as int),
                rc.subrange(n - i, n as int),
            ),
            0 <= in_index < in_inner_size,
            in_inner_size <= out_inner_size,
        decreases n - i,
    {
        let j: usize = n - 1 - i;
        let x = out_shape[j];
        proof {
            assert(nonzero_dims(rs));
            lemma_suffix_size_step(os, j as int);
            lemma_suffix_size_step(rs, j as int);
            lemma_suffix_size_mono(os, 0, j as int);
            lemma_suffix_size_mono(os, j as int + 1, n as int);
            vstd::arithmetic::mul::lemma_mul_is_commutative(x as int, out_inner_size as int);
            lemma_suffix_size_mono(rs, j as int, n as int);
            assert(suffix_size(os, 0) == size(os)) by {
                assert(os.subrange(0, n as int) =~= os);
            }
            lemma_unravel_coord(os, out_index as int, j as int);
        }
        let reads = j < n && (n - 1 - j) < in_shape.len() && in_shape[in_shape.len() - 1 - (n - 1 - j)] != 1;
        proof {
            assert(reads == reads_dim(in_shape@, n as int, j as int));
        }
        if reads {
            let c: usize = out_index % (out_inner_size * x) / out_inner_size;
            proof {
                lemma_mod_div_coord(out_index as int, out_inner_size as int, x as int);
                assert(c as int == u[j as int]);
                let ss = rs.subrange(j as int, n as int);
                let cc = rc.subrange(j as int, n as int);
                lemma_ravel_first(ss, cc);
                assert(ss.drop_first() =~= rs.subrange(j as int + 1, n as int));
                assert(cc.drop_first() =~= rc.subrange(j as int + 1, n as int));
                assert(size(ss.drop_first()) == suffix_size(rs, j as int + 1));
                assert(c as int * in_inner_size + in_index < x * in_inner_size) by (nonlinear_arith)
                    requires
                        c < x,
                        in_index < in_inner_size,
                ;
                assert(x as int * in_inner_size <= x as int * out_inner_size) by (nonlinear_arith)
                    requires
                        in_inner_size <= out_inner_size,
                ;
            }
            in_index = in_index + c * in_inner_size;
            in_inner_size = in_inner_size * x;
            proof {
                assert(rc[j as int] == c as int);
                assert(rs[j as int] == x);
                assert(in_index as int == ravel(
                    rs.subrange(j as int, n as int),
                    rc.subrange(j as int, n as int),
                ));
            }
        } else {
            proof {
                let ss = rs.subrange(j as int, n as int);
                let cc = rc.subrange(j as int, n as int);
                lemma_ravel_first(ss, cc);
                assert(ss.drop_first() =~= rs.subrange(j as int + 1, n as int));
                assert(cc.drop_first() =~= rc.subrange(j as int + 1, n as int));
                assert(size(ss.drop_first()) == suffix_size(rs, j as int + 1));
                assert(in_inner_size as int <= x as int * out_inner_size) by (nonlinear_arith)
                    requires
                        in_inner_size <= out_inner_size,
                        x >= 1,
                ;
                assert(rc[j as int] == 0);
                assert(rs[j as int] == 1);
                assert(cc[0] == 0);
                assert(0 * size(ss.drop_first()) == 0) by (nonlinear_arith);
                assert(in_index as int == ravel(ss, cc));
            }
        }
        out_inner_size = out_inner_size * x;
        i += 1;
    }
    proof {
        assert(rs.subrange(0, n as int) =~= rs);
        assert(rc.subrange(0, n as int) =~= rc);
    }
    in_index
}

/// The coordinate of a position inside a block: `(k % (a * x)) / a == (k / a) % x`.
pub proof fn lemma_mod_div_coord(k: int, a: int, x: int)
    requires
        k >= 0,
        a > 0,
        x > 0,
    ensures
        a * x > 0,
        (k % (a * x)) / a == (k / a) % x,
{
    vstd::arithmetic::div_mod::lemma_mod_breakdown(k, a, x);
    vstd::arithmetic::div_mod::lemma_mod_bound(k, a);
    vstd::arithmetic::div_mod::lemma_mod_bound(k / a, x);
    vstd::arithmetic::div_mod::lemma_div_pos_is_pos(k, a);
    vstd::arithmetic::mul::lemma_mul_is_commutative(a, (k / a) % x);
    vstd::arithmetic::div_mod::lemma_fundamental_div_mod_converse(
        k % (a * x),
        a,
        (k / a) % x,
        k % a,
    );
}

/// Leading dimensions of size 1, read at coordinate 0, do not change the rank.
pub proof fn lemma_ravel_pad(shape: Seq<usize>, idx: Seq<int>, d: int)
    requires
        idx.len() == shape.len(),
        d >= 0,
    ensures
        ravel(
            Seq::new(d as nat, |j: int| 1usize) + shape,
            Seq::new(d as nat, |j: int| 0int) + idx,
        ) == ravel(shape, idx),
    decreases d,
{
    if d > 0 {
        let ps = Seq::new(d as nat, |j: int| 1usize) + shape;
        let pi = Seq::new(d as nat, |j: int| 0int) + idx;
        lemma_ravel_first(ps, pi);
        assert(ps.drop_first() =~= Seq::new((d - 1) as nat, |j: int| 1usize) + shape);
        assert(pi.drop_first() =~= Seq::new((d - 1) as nat, |j: int| 0int) + idx);
        lemma_ravel_pad(shape, idx, d - 1);
        assert(pi[0] == 0);
        assert(0 * size(ps.drop_first()) == 0) by (nonlinear_arith);
    } else {
        assert(Seq::new(d as nat, |j: int| 1usize) + shape =~= shape);
        assert(Seq::new(d as nat, |j: int| 0int) + idx =~= idx);
    }
}

/// The two ways of broadcasting agree: for a contiguous input broadcast onto the output
/// shape, the flat index that `get_broadcast_index` computes is the memory position that
/// the expanded view (`expand`, through the broadcast strides) reads.
pub proof fn law_broadcast_index_matches_expand(in_shape: Seq<usize>, out_shape: Seq<usize>, k: int)
    requires
        nonzero_dims(in_shape),
        size(in_shape) <= usize::MAX,
        shapes_broadcastable(in_shape, out_shape),
        broadcast_of(in_shape, out_shape) == out_shape,
        k >= 0,
    ensures
        ravel(
            read_shape(in_shape, out_shape),
            read_coords(in_shape, out_shape.len() as int, unravel(out_shape, k)),
        ) == physical(
            out_shape,
            broadcast_strides(in_shape, contiguous_strides_usize(in_shape), out_shape),
            k,
        ),
{
    let n = out_shape.len() as int;
    let m = in_shape.len() as int;
    lemma_broadcast_onto(in_shape, out_shape);
    let d = n - m;
    let c = unravel(out_shape, k);
    lemma_unravel_len(out_shape, k);
    let cs = contiguous_strides_usize(in_shape);
    lemma_offset_broadcast(in_shape, cs, out_shape, c);
    let p = project(in_shape, out_shape, c);
    lemma_suffix_sizes_fit(in_shape);
    lemma_offset_contiguous(in_shape, p);
    assert(read_shape(in_shape, out_shape) =~= Seq::new(d as nat, |j: int| 1usize) + in_shape) by {
        assert forall|j: int| 0 <= j < n implies #[trigger] read_shape(in_shape, out_shape)[j] == (
        Seq::new(d as nat, |j: int| 1usize) + in_shape)[j] by {
            if j >= d {
                assert(rdim(in_shape, n - 1 - j) == in_shape[j - d]);
            }
        }
    }
    assert(read_coords(in_shape, n, c) =~= Seq::new(d as nat, |j: int| 0int) + p) by {
        assert forall|j: int| 0 <= j < n implies #[trigger] read_coords(in_shape, n, c)[j] == (
        Seq::new(d as nat, |j: int| 0int) + p)[j] by {
            if j >= d {
                assert(rdim(in_shape, n - 1 - j) == in_shape[j - d]);
            }
        }
    }
    lemma_ravel_pad(in_shape, p, d);
}

} // verus!
