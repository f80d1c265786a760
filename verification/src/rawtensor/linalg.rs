//! Dot product and matrix product. The arithmetic is a multiply-accumulate step
//! `f(acc, x, y)` handed in by the caller, started from `zero`.
use vstd::prelude::*;
use super::RawTensor;
use crate::shape::{contiguous_strides_usize, in_bounds, lemma_unravel_ravel, ravel, size};

verus! {

/// `acc` is a run of `f` over the pairs `xs[t], ys[t]`, in order, from `zero`:
/// `acc[t + 1]` is a value that `f` may return for `(acc[t], xs[t], ys[t])`.
pub open spec fn accumulates<T, F: Fn(T, T, T) -> T>(
    f: F,
    zero: T,
    xs: Seq<T>,
    ys: Seq<T>,
    acc: Seq<T>,
) -> bool {
    &&& xs.len() == ys.len()
    &&& acc.len() == xs.len() + 1
    &&& acc[0] == zero
    &&& forall|t: int|
        #![trigger xs[t]]
        0 <= t < xs.len() ==> f.ensures((acc[t], xs[t], ys[t]), acc[t + 1])
}

/// `y` is what a run of `f` over the pairs of `xs` and `ys`, from `zero`, ends with.
pub open spec fn folds_to<T, F: Fn(T, T, T) -> T>(f: F, zero: T, xs: Seq<T>, ys: Seq<T>, y: T) -> bool {
    exists|acc: Seq<T>| #[trigger] accumulates(f, zero, xs, ys, acc) && acc.last() == y
}

/// Row `i` of the row-major matrix `v` with `cols` columns.
pub open spec fn matrix_row<T>(v: Seq<T>, cols: int, i: int) -> Seq<T> {
    Seq::new(cols as nat, |t: int| v[i * cols + t])
}

/// The element of the two-dimensional tensor `m` at row `i` and column `j`.
pub open spec fn matrix_at<T>(m: &RawTensor<T>, i: int, j: int) -> T {
    m.at(seq![i, j])
}

/// Column `j` of the row-major matrix `v` with `rows` rows and `cols` columns.
pub open spec fn matrix_col<T>(v: Seq<T>, rows: int, cols: int, j: int) -> Seq<T> {
    Seq::new(rows as nat, |t: int| v[t * cols + j])
}

proof fn lemma_row_major_index(i: int, j: int, rows: int, cols: int)
    requires
        0 <= i < rows,
        0 <= j < cols,
    ensures
        0 <= i * cols + j < rows * cols,
        i * cols + j + 1 <= (i + 1) * cols,
        (i + 1) * cols <= rows * cols,
{
    assert(0 <= i * cols) by (nonlinear_arith)
        requires
            0 <= i,
            0 <= cols,
    ;
    assert((i + 1) * cols == i * cols + cols) by (nonlinear_arith);
    assert((i + 1) * cols <= rows * cols) by (nonlinear_arith)
        requires
            i + 1 <= rows,
            0 <= cols,
    ;
}

/// The `n` elements `v[base], v[base + step], ..., v[base + (n - 1) * step]`.
pub open spec fn strided<T>(v: Seq<T>, base: int, step: int, n: int) -> Seq<T> {
    Seq::new(n as nat, |q: int| v[base + q * step])
}

proof fn lemma_strided_pos(base: int, step: int, n: int, q: int)
    requires
        0 <= q < n,
        0 <= base,
        0 <= step,
    ensures
        0 <= base + q * step <= base + (n - 1) * step,
{
    assert(0 <= q * step <= (n - 1) * step) by (nonlinear_arith)
        requires
            0 <= q <= n - 1,
            0 <= step,
    ;
}

/// Runs `f` over the pairs `xs[base + t * step]`, `ys[base2 + t * step2]` for `t < n`,
/// from `zero`.
fn run_accumulate<T: Copy>(
    f: &impl Fn(T, T, T) -> T,
    zero: T,
    xs: &Vec<T>,
    base: usize,
    step: usize,
    ys: &Vec<T>,
    base2: usize,
    step2: usize,
    n: usize,
) -> (y: T)
    requires
        forall|a: T, b: T, c: T| f.requires((a, b, c)),
        n > 0 ==> base + (n - 1) * step < xs@.len(),
        n > 0 ==> base2 + (n - 1) * step2 < ys@.len(),
    ensures
        folds_to(*f, zero, strided(xs@, base as int, step as int, n as int), strided(ys@, base2 as int, step2 as int, n as int), y),
{
    let ghost xrow = strided(xs@, base as int, step as int, n as int);
    let ghost ycol = strided(ys@, base2 as int, step2 as int, n as int);
    let xl = xs.len();
    let yl = ys.len();
    let mut acc = zero;
    let ghost mut accs: Seq<T> = seq![zero];
    let mut t: usize = 0;
    while t < n
        invariant
            forall|a: T, b: T, c: T| f.requires((a, b, c)),
            n > 0 ==> base + (n - 1) * step < xs@.len(),
            n > 0 ==> base2 + (n - 1) * step2 < ys@.len(),
            xrow == strided(xs@, base as int, step as int, n as int),
            ycol == strided(ys@, base2 as int, step2 as int, n as int),
            xl == xs@.len(),
            yl == ys@.len(),
            t <= n,
            accs.len() == t + 1,
            accs[0] == zero,
            accs.last() == acc,
            forall|q: int| 0 <= q < t ==> f.ensures((accs[q], xrow[q], ycol[q]), #[trigger] accs[q + 1]),
        decreases n - t,
    {
        proof {
            lemma_strided_pos(base as int, step as int, n as int, t as int);
            lemma_strided_pos(base2 as int, step2 as int, n as int, t as int);
        }
        let x = xs[base + t * step];
        let y = ys[base2 + t * step2];
        let next = f(acc, x, y);
        proof {
            let old_accs = accs;
            accs = accs.push(next);
            assert forall|q: int| 0 <= q < t + 1 implies f.ensures(
                (accs[q], xrow[q], ycol[q]),
                #[trigger] accs[q + 1],
            ) by {
                if q < t {
                    assert(accs[q] == old_accs[q]);
                    assert(accs[q + 1] == old_accs[q + 1]);
                }
            }
        }
        acc = next;
        t += 1;
    }
    proof {
        assert forall|q: int| #![trigger xrow[q]] 0 <= q < xrow.len() implies f.ensures(
            (accs[q], xrow[q], ycol[q]),
            accs[q + 1],
        ) by {
            assert(f.ensures((accs[q], xrow[q], ycol[q]), accs[q + 1]));
        }
        assert(accumulates(*f, zero, xrow, ycol, accs));
    }
    acc
}

impl<T: Copy> RawTensor<T> {
    /// The dot product of two one-dimensional tensors of the same length: a
    /// 0-dimensional tensor holding the run of `f` over the pairs of elements, from `zero`.
    pub fn dot(&self, other: &RawTensor<T>, zero: T, f: impl Fn(T, T, T) -> T) -> (r: RawTensor<T>)
        requires
            self.shape_view().len() == 1,
            other.shape_view().len() == 1,
            self.shape_view()[0] == other.shape_view()[0],
            forall|a: T, b: T, c: T| f.requires((a, b, c)),
        ensures
            r.shape_view() == Seq::<usize>::empty(),
            r.values().len() == 1,
            folds_to(f, zero, self.values(), other.values(), r.values()[0]),
    {
        self.check_inv();
        let va = self.iter();
        let vb = other.iter();
        let n = self.shape[0];
        proof {
            reveal_with_fuel(size, 2);
            assert(va@.len() == n);
            assert(vb@.len() == n);
            assert(strided(va@, 0, 1, n as int) =~= va@);
            assert(strided(vb@, 0, 1, n as int) =~= vb@);
        }
        let p = run_accumulate(&f, zero, &va, 0, 1, &vb, 0, 1, n);
        RawTensor::from_scalar(p)
    }

    /// The matrix product of `[m, k]` and `[k, n]` tensors: an `[m, n]` contiguous tensor
    /// whose entry `(i, j)` is the run of `f` over row `i` of `self` and column `j` of
    /// `other`, from `zero`.
    pub fn matmul(&self, other: &RawTensor<T>, zero: T, f: impl Fn(T, T, T) -> T) -> (r: RawTensor<T>)
        requires
            self.shape_view().len() == 2,
            other.shape_view().len() == 2,
            self.shape_view()[1] == other.shape_view()[0],
            self.shape_view()[0] * other.shape_view()[1] <= usize::MAX,
            forall|a: T, b: T, c: T| f.requires((a, b, c)),
        ensures
            r.shape_view() == seq![self.shape_view()[0], other.shape_view()[1]],
            r.strides_view() == contiguous_strides_usize(r.shape_view()),
            r.values() == r.data_view(),
            r.values().len() == self.shape_view()[0] * other.shape_view()[1],
            forall|i: int, j: int|
                0 <= i < self.shape_view()[0] && 0 <= j < other.shape_view()[1] ==> folds_to(
                    f,
                    zero,
                    matrix_row(self.values(), self.shape_view()[1] as int, i),
                    matrix_col(other.values(), other.shape_view()[0] as int, other.shape_view()[1] as int, j),
                    #[trigger] r.values()[i * other.shape_view()[1] + j],
                ),
            forall|i: int, j: int|
                0 <= i < self.shape_view()[0] && 0 <= j < other.shape_view()[1] ==> folds_to(
                    f,
                    zero,
                    Seq::new(self.shape_view()[1] as nat, |t: int| matrix_at(self, i, t)),
                    Seq::new(self.shape_view()[1] as nat, |t: int| matrix_at(other, t, j)),
                    #[trigger] matrix_at(&r, i, j),
                ),
    {
        self.check_inv();
        other.check_inv();
        let va = self.iter();
        let vb = other.iter();
        let m = self.shape[0];
        let kk = self.shape[1];
        let n = other.shape[1];
        let ghost av = self.values();
        let ghost bv = other.values();
        proof {
            reveal_with_fuel(size, 3);
            assert(va@.len() == m * kk);
            assert(vb@.len() == kk * n);
            assert(kk > 0 && n > 0);
        }
        let mut out: Vec<T> = Vec::new();
        let mut i: usize = 0;
        while i < m
            invariant
                va@ == av,
                vb@ == bv,
                av.len() == m * kk,
                bv.len() == kk * n,
                av.len() <= usize::MAX,
                kk > 0,
                n > 0,
                m * n <= usize::MAX,
                forall|a: T, b: T, c: T| f.requires((a, b, c)),
                i <= m,
                out@.len() == i * n,
                forall|ii: int, jj: int|
                    0 <= ii < i && 0 <= jj < n ==> folds_to(
                        f,
                        zero,
                        matrix_row(av, kk as int, ii),
                        matrix_col(bv, kk as int, n as int, jj),
                        #[trigger] out@[ii * n + jj],
                    ),
            decreases m - i,
        {
            let mut j: usize = 0;
            let ghost before = out@;
            while j < n
                invariant
                    va@ == av,
                    vb@ == bv,
                    av.len() == m * kk,
                    bv.len() == kk * n,
                    av.len() <= usize::MAX,
                    kk > 0,
                    n > 0,
                    m * n <= usize::MAX,
                    forall|a: T, b: T, c: T| f.requires((a, b, c)),
                    i < m,
                    j <= n,
                    before.len() == i * n,
                    out@.len() == i * n + j,
                    out@.subrange(0, i * n) == before,
                    forall|ii: int, jj: int|
                        0 <= ii < i && 0 <= jj < n ==> folds_to(
                            f,
                            zero,
                            matrix_row(av, kk as int, ii),
                            matrix_col(bv, kk as int, n as int, jj),
                            #[trigger] before[ii * n + jj],
                        ),
                    forall|jj: int|
                        0 <= jj < j ==> folds_to(
                            f,
                            zero,
                            matrix_row(av, kk as int, i as int),
                            matrix_col(bv, kk as int, n as int, jj),
                            #[trigger] out@[i * n + jj],
                        ),
                decreases n - j,
            {
                let ghost row = matrix_row(av, kk as int, i as int);
                let ghost col = matrix_col(bv, kk as int, n as int, j as int);
                proof {
                    lemma_row_major_index(i as int, kk - 1, m as int, kk as int);
                    lemma_row_major_index(kk - 1, j as int, kk as int, n as int);
                    lemma_row_major_index(i as int, j as int, m as int, n as int);
                    assert(strided(va@, i * kk, 1, kk as int) =~= row);
                    assert forall|t: int| 0 <= t < kk implies #[trigger] col[t] == strided(vb@, j as int, n as int, kk as int)[t] by {
                        assert(t * n == j as int * 0 + t * (n as int));
                    }
                    assert(strided(vb@, j as int, n as int, kk as int) =~= col);
                }
                let base = i * kk;
                let y = run_accumulate(&f, zero, &va, base, 1, &vb, j, n, kk);
                let ghost prev = out@;
                out.push(y);
                proof {
                    assert(out@.subrange(0, i * n) =~= prev.subrange(0, i * n));
                    assert forall|jj: int| 0 <= jj < j + 1 implies folds_to(
                        f,
                        zero,
                        matrix_row(av, kk as int, i as int),
                        matrix_col(bv, kk as int, n as int, jj),
                        #[trigger] out@[i * n + jj],
                    ) by {
                        if jj < j {
                            assert(out@[i * n + jj] == prev[i * n + jj]);
                        }
                    }
                }
                j += 1;
            }
            proof {
                assert((i + 1) * n == i * n + n) by (nonlinear_arith);
                assert forall|ii: int, jj: int|
                    0 <= ii < i + 1 && 0 <= jj < n implies folds_to(
                        f,
                        zero,
                        matrix_row(av, kk as int, ii),
                        matrix_col(bv, kk as int, n as int, jj),
                        #[trigger] out@[ii * n + jj],
                    ) by {
                    if ii < i {
                        lemma_row_major_index(ii, jj, i as int, n as int);
                        assert(out@[ii * n + jj] == out@.subrange(0, i * n)[ii * n + jj]);
                    }
                }
            }
            i += 1;
        }
        let shape: Vec<usize> = vec![m, n];
        proof {
            assert(shape@ =~= seq![m, n]);
            reveal_with_fuel(size, 3);
            assert(size(shape@) == m * n);
            assert(crate::shape::nonzero_dims(self.shape_view()));
            assert(crate::shape::nonzero_dims(other.shape_view()));
        }
        let r = RawTensor::from_vec(shape.as_slice(), out);
        proof {
            // the entries, rows and columns read by coordinates
            assert forall|i: int, j: int|
                0 <= i < m && 0 <= j < n implies folds_to(
                    f,
                    zero,
                    Seq::new(kk as nat, |t: int| matrix_at(self, i, t)),
                    Seq::new(kk as nat, |t: int| matrix_at(other, t, j)),
                    #[trigger] matrix_at(&r, i, j),
                ) by {
                lemma_matrix_entry(&r, i, j);
                assert forall|t: int| 0 <= t < kk implies #[trigger] matrix_row(av, kk as int, i)[t]
                    == matrix_at(self, i, t) by {
                    law_matrix_rows_cols(self, i, 0, t);
                }
                assert forall|t: int| 0 <= t < kk implies #[trigger] matrix_col(bv, kk as int, n as int, j)[t]
                    == matrix_at(other, t, j) by {
                    law_matrix_rows_cols(other, 0, j, t);
                }
                assert(matrix_row(av, kk as int, i) =~= Seq::new(kk as nat, |t: int| matrix_at(self, i, t)));
                assert(matrix_col(bv, kk as int, n as int, j) =~= Seq::new(kk as nat, |t: int| matrix_at(other, t, j)));
            }
        }
        r
    }
}

/// The element of a `[rows, cols]` tensor at `(a, b)` is its element number `a * cols + b`
/// in logical order.
proof fn lemma_matrix_entry<T>(m: &RawTensor<T>, a: int, b: int)
    requires
        m.shape_view().len() == 2,
        0 <= a < m.shape_view()[0],
        0 <= b < m.shape_view()[1],
    ensures
        0 <= a * (m.shape_view()[1] as int) + b < m.values().len(),
        m.values()[a * (m.shape_view()[1] as int) + b] == matrix_at(m, a, b),
{
    let sh = m.shape_view();
    let rows = sh[0] as int;
    let cols = sh[1] as int;
    let idx = seq![a, b];
    lemma_row_major_index(a, b, rows, cols);
    assert(sh.drop_last() =~= seq![sh[0]]);
    assert(idx.drop_last() =~= seq![a]);
    assert(seq![sh[0]].drop_last() =~= Seq::<usize>::empty());
    assert(seq![a].drop_last() =~= Seq::<int>::empty());
    assert(size(sh) == rows * cols) by {
        reveal_with_fuel(size, 3);
    }
    assert(ravel(sh, idx) == a * cols + b) by {
        reveal_with_fuel(ravel, 3);
    }
    assert(in_bounds(idx, sh));
    lemma_unravel_ravel(sh, idx);
}

/// Whatever its layout, row `i` of a `[rows, cols]` tensor, taken from its elements in
/// logical order, holds its elements at `(i, t)`, and column `j` its elements at `(t, j)`.
pub proof fn law_matrix_rows_cols<T>(m: &RawTensor<T>, i: int, j: int, t: int)
    requires
        m.shape_view().len() == 2,
    ensures
        0 <= i < m.shape_view()[0] && 0 <= t < m.shape_view()[1] ==> matrix_row(
            m.values(),
            m.shape_view()[1] as int,
            i,
        )[t] == matrix_at(m, i, t),
        0 <= j < m.shape_view()[1] && 0 <= t < m.shape_view()[0] ==> matrix_col(
            m.values(),
            m.shape_view()[0] as int,
            m.shape_view()[1] as int,
            j,
        )[t] == matrix_at(m, t, j),
{
    if 0 <= i < m.shape_view()[0] && 0 <= t < m.shape_view()[1] {
        lemma_matrix_entry(m, i, t);
    }
    if 0 <= j < m.shape_view()[1] && 0 <= t < m.shape_view()[0] {
        lemma_matrix_entry(m, t, j);
    }
}

} // verus!
