//! Dense matrices and vectors of exact rationals.
//!
//! The flat backing buffer is addressed column-major (`column * rows + row`),
//! the one indexing convention used end to end; the view abstracts that away
//! as a sequence of rows of `(int, int)` rational pairs, and every contract is
//! stated against that view.

use vstd::prelude::*;
use crate::rational::Rat;
use crate::rational::pwf;
use crate::rational::pzero;
use crate::rational::pone;
use crate::rational::padd;
use crate::rational::psub;
use crate::rational::pmul;
use crate::rational::peq;
use crate::rational::pnonneg;
use crate::rational::fits;
use crate::rational::lemma_pops_wf;
use crate::rational::lemma_peq_trans;
use crate::rational::lemma_padd_congr;
use crate::rational::lemma_pmul_congr;
use crate::rational::lemma_padd_nonneg;

verus! {

/// The rational pairs denoted by a sequence of scalars.
pub open spec fn rats(v: Seq<Rat>) -> Seq<(int, int)> {
    Seq::new(v.len(), |i: int| v[i]@)
}

/// Every scalar of the sequence is well-formed.
pub open spec fn rats_wf(v: Seq<Rat>) -> bool {
    forall|i: int| 0 <= i < v.len() ==> (#[trigger] v[i]).wf()
}

/// Every pair of the sequence is well-formed.
pub open spec fn entries_wf(s: Seq<(int, int)>) -> bool {
    forall|i: int| 0 <= i < s.len() ==> pwf(#[trigger] s[i])
}

/// Every pair of the matrix is well-formed.
pub open spec fn mat_entries_wf(m: Seq<Seq<(int, int)>>) -> bool {
    forall|i: int| 0 <= i < m.len() ==> entries_wf(#[trigger] m[i])
}

/// Every pair of the matrix fits the scalar range.
pub open spec fn mat_entries_fit(m: Seq<Seq<(int, int)>>) -> bool {
    forall|i: int, j: int| 0 <= i < m.len() && 0 <= j < m[i].len() ==> fits(#[trigger] m[i][j])
}

/// The matrix has `r` rows of `c` entries each.
pub open spec fn mat_dims(m: Seq<Seq<(int, int)>>, r: int, c: int) -> bool {
    m.len() == r && forall|i: int| 0 <= i < r ==> (#[trigger] m[i]).len() == c
}

/// Row `i` of the matrix.
pub open spec fn srow(m: Seq<Seq<(int, int)>>, i: int) -> Seq<(int, int)> {
    m[i]
}

/// Column `j` of the matrix.
pub open spec fn scol(m: Seq<Seq<(int, int)>>, j: int) -> Seq<(int, int)> {
    Seq::new(m.len(), |i: int| m[i][j])
}

/// Sum of a sequence of rationals, accumulated left to right.
pub open spec fn vsum(s: Seq<(int, int)>) -> (int, int)
    decreases s.len(),
{
    if s.len() == 0 {
        pzero()
    } else {
        padd(vsum(s.drop_last()), s.last())
    }
}

/// Inner product of two sequences of rationals of equal length.
pub open spec fn dot(a: Seq<(int, int)>, b: Seq<(int, int)>) -> (int, int)
    decreases a.len(),
{
    if a.len() == 0 || b.len() == 0 {
        pzero()
    } else {
        padd(dot(a.drop_last(), b.drop_last()), pmul(a.last(), b.last()))
    }
}

/// Sum of all entries of a matrix, row by row.
pub open spec fn msum(m: Seq<Seq<(int, int)>>) -> (int, int)
    decreases m.len(),
{
    if m.len() == 0 {
        pzero()
    } else {
        padd(msum(m.drop_last()), vsum(m.last()))
    }
}

/// Matrix product of `a` and `b`, where `b` has `bc` columns.
pub open spec fn smat_mul(a: Seq<Seq<(int, int)>>, b: Seq<Seq<(int, int)>>, bc: nat) -> Seq<
    Seq<(int, int)>,
> {
    Seq::new(a.len(), |i: int| Seq::new(bc, |j: int| dot(srow(a, i), scol(b, j))))
}

/// The `n` by `n` identity matrix.
pub open spec fn sident(n: nat) -> Seq<Seq<(int, int)>> {
    Seq::new(
        n,
        |i: int|
            Seq::new(
                n,
                |j: int|
                    if i == j {
                        pone()
                    } else {
                        pzero()
                    },
            ),
    )
}

/// The matrix `I - a` for a square `a`.
pub open spec fn sident_minus(a: Seq<Seq<(int, int)>>) -> Seq<Seq<(int, int)>> {
    Seq::new(
        a.len(),
        |i: int|
            Seq::new(
                a[i].len(),
                |j: int|
                    psub(
                        if i == j {
                            pone()
                        } else {
                            pzero()
                        },
                        a[i][j],
                    ),
            ),
    )
}

/// The matrix `m` with column `j` replaced by zeros.
pub open spec fn szero_col(m: Seq<Seq<(int, int)>>, j: int) -> Seq<Seq<(int, int)>> {
    Seq::new(
        m.len(),
        |i: int|
            Seq::new(
                m[i].len(),
                |k: int|
                    if k == j {
                        pzero()
                    } else {
                        m[i][k]
                    },
            ),
    )
}

/// The matrix `m` with row `i` replaced by zeros.
pub open spec fn szero_row(m: Seq<Seq<(int, int)>>, i: int) -> Seq<Seq<(int, int)>> {
    Seq::new(
        m.len(),
        |x: int|
            Seq::new(
                m[x].len(),
                |k: int|
                    if x == i {
                        pzero()
                    } else {
                        m[x][k]
                    },
            ),
    )
}

/// The matrix `m` with `e` added to the single entry `(i, j)`.
pub open spec fn sperturb(m: Seq<Seq<(int, int)>>, i: int, j: int, e: (int, int)) -> Seq<
    Seq<(int, int)>,
> {
    Seq::new(
        m.len(),
        |x: int|
            Seq::new(
                m[x].len(),
                |y: int|
                    if x == i && y == j {
                        padd(m[x][y], e)
                    } else {
                        m[x][y]
                    },
            ),
    )
}

/// The two matrices have the same shape and denote the same rationals.
pub open spec fn mat_peq(x: Seq<Seq<(int, int)>>, y: Seq<Seq<(int, int)>>) -> bool {
    &&& x.len() == y.len()
    &&& forall|i: int| 0 <= i < x.len() ==> (#[trigger] x[i]).len() == y[i].len()
    &&& forall|i: int, j: int|
        0 <= i < x.len() && 0 <= j < x[i].len() ==> peq(#[trigger] x[i][j], y[i][j])
}

/// `x` is a two-sided inverse of the `n` by `n` matrix `m`, up to rational
/// equality of every entry. A square matrix has at most one such inverse, so
/// this pins `x` down as a rational matrix.
pub open spec fn is_inverse(m: Seq<Seq<(int, int)>>, x: Seq<Seq<(int, int)>>, n: nat) -> bool {
    &&& mat_dims(m, n as int, n as int)
    &&& mat_dims(x, n as int, n as int)
    &&& mat_entries_wf(x)
    &&& mat_peq(smat_mul(m, x, n), sident(n))
    &&& mat_peq(smat_mul(x, m, n), sident(n))
}

/// A sum of well-formed entries is well-formed.
pub proof fn lemma_vsum_wf(s: Seq<(int, int)>)
    requires
        entries_wf(s),
    ensures
        pwf(vsum(s)),
    decreases s.len(),
{
    if s.len() == 0 {
    } else {
        assert(forall|i: int| 0 <= i < s.drop_last().len() ==> s.drop_last()[i] == s[i]);
        lemma_vsum_wf(s.drop_last());
        lemma_pops_wf(vsum(s.drop_last()), s.last());
    }
}

/// Summing entrywise-equal sequences gives equal sums.
pub proof fn lemma_vsum_congr(s: Seq<(int, int)>, t: Seq<(int, int)>)
    requires
        s.len() == t.len(),
        entries_wf(s),
        entries_wf(t),
        forall|i: int| 0 <= i < s.len() ==> peq(#[trigger] s[i], #[trigger] t[i]),
    ensures
        peq(vsum(s), vsum(t)),
    decreases s.len(),
{
    if s.len() == 0 {
    } else {
        assert(forall|i: int| 0 <= i < s.drop_last().len() ==> s.drop_last()[i] == s[i]);
        assert(forall|i: int| 0 <= i < t.drop_last().len() ==> t.drop_last()[i] == t[i]);
        lemma_vsum_congr(s.drop_last(), t.drop_last());
        lemma_padd_congr(vsum(s.drop_last()), vsum(t.drop_last()), s.last(), t.last());
    }
}

/// Every pair of the sequence is nonnegative.
pub open spec fn entries_nonneg(s: Seq<(int, int)>) -> bool {
    forall|i: int| 0 <= i < s.len() ==> pnonneg(#[trigger] s[i])
}

/// Every pair of the matrix is nonnegative.
pub open spec fn mat_entries_nonneg(m: Seq<Seq<(int, int)>>) -> bool {
    forall|i: int, j: int|
        0 <= i < m.len() && 0 <= j < m[i].len() ==> pnonneg(#[trigger] m[i][j])
}

/// A sum of nonnegative entries is nonnegative.
pub proof fn lemma_vsum_nonneg(s: Seq<(int, int)>)
    requires
        entries_wf(s),
        forall|i: int| 0 <= i < s.len() ==> pnonneg(#[trigger] s[i]),
    ensures
        pnonneg(vsum(s)),
    decreases s.len(),
{
    if s.len() == 0 {
    } else {
        assert(forall|i: int| 0 <= i < s.drop_last().len() ==> s.drop_last()[i] == s[i]);
        lemma_vsum_nonneg(s.drop_last());
        lemma_vsum_wf(s.drop_last());
        lemma_padd_nonneg(vsum(s.drop_last()), s.last());
    }
}

/// For nonnegative well-formed entries, every prefix sum is bounded by the
/// whole sum, componentwise.
pub proof fn lemma_vsum_prefix_bounds(s: Seq<(int, int)>, k: int)
    requires
        entries_wf(s),
        entries_nonneg(s),
        0 <= k <= s.len(),
    ensures
        0 <= vsum(s.take(k)).0 <= vsum(s).0,
        0 < vsum(s.take(k)).1 <= vsum(s).1,
    decreases s.len(),
{
    assert(forall|i: int| 0 <= i < s.len() ==> pwf(#[trigger] s[i]) && pnonneg(s[i]));
    if k == s.len() {
        lemma_take_full(s);
        lemma_vsum_wf(s);
        lemma_vsum_nonneg(s);
    } else {
        assert(s.take(k) =~= s.drop_last().take(k));
        assert(forall|i: int| 0 <= i < s.drop_last().len() ==> s.drop_last()[i] == s[i]);
        lemma_vsum_prefix_bounds(s.drop_last(), k);
        lemma_vsum_wf(s.drop_last());
        lemma_vsum_nonneg(s.drop_last());
        let vp = vsum(s.drop_last());
        let xl = s.last();
        assert(vsum(s) == padd(vp, xl));
        assert(vp.0 <= vp.0 * xl.1 + xl.0 * vp.1 && vp.1 <= vp.1 * xl.1) by (nonlinear_arith)
            requires
                vp.0 >= 0,
                vp.1 > 0,
                xl.0 >= 0,
                xl.1 >= 1;
    }
}

/// One more term extends a prefix sum.
pub proof fn lemma_vsum_take_succ(s: Seq<(int, int)>, k: int)
    requires
        0 <= k < s.len(),
    ensures
        vsum(s.take(k + 1)) == padd(vsum(s.take(k)), s[k]),
{
    assert(s.take(k + 1).drop_last() =~= s.take(k));
    assert(s.take(k + 1).last() == s[k]);
}

/// Taking the whole sequence changes nothing.
pub proof fn lemma_take_full(s: Seq<(int, int)>)
    ensures
        s.take(s.len() as int) =~= s,
{
}

/// An inner product of well-formed entries is well-formed.
pub proof fn lemma_dot_wf(a: Seq<(int, int)>, b: Seq<(int, int)>)
    requires
        entries_wf(a),
        entries_wf(b),
    ensures
        pwf(dot(a, b)),
    decreases a.len(),
{
    if a.len() == 0 || b.len() == 0 {
    } else {
        assert(forall|i: int| 0 <= i < a.drop_last().len() ==> a.drop_last()[i] == a[i]);
        assert(forall|i: int| 0 <= i < b.drop_last().len() ==> b.drop_last()[i] == b[i]);
        lemma_dot_wf(a.drop_last(), b.drop_last());
        lemma_pops_wf(a.last(), b.last());
        lemma_pops_wf(dot(a.drop_last(), b.drop_last()), pmul(a.last(), b.last()));
    }
}

/// Entrywise-equal factors give equal inner products.
pub proof fn lemma_dot_congr(
    a: Seq<(int, int)>,
    a2: Seq<(int, int)>,
    b: Seq<(int, int)>,
    b2: Seq<(int, int)>,
)
    requires
        a.len() == b.len(),
        a2.len() == b2.len(),
        a.len() == a2.len(),
        entries_wf(a),
        entries_wf(a2),
        entries_wf(b),
        entries_wf(b2),
        forall|i: int| 0 <= i < a.len() ==> peq(#[trigger] a[i], #[trigger] a2[i]),
        forall|i: int| 0 <= i < b.len() ==> peq(#[trigger] b[i], #[trigger] b2[i]),
    ensures
        peq(dot(a, b), dot(a2, b2)),
    decreases a.len(),
{
    if a.len() == 0 {
    } else {
        assert(forall|i: int| 0 <= i < a.drop_last().len() ==> a.drop_last()[i] == a[i]);
        assert(forall|i: int| 0 <= i < a2.drop_last().len() ==> a2.drop_last()[i] == a2[i]);
        assert(forall|i: int| 0 <= i < b.drop_last().len() ==> b.drop_last()[i] == b[i]);
        assert(forall|i: int| 0 <= i < b2.drop_last().len() ==> b2.drop_last()[i] == b2[i]);
        lemma_dot_congr(a.drop_last(), a2.drop_last(), b.drop_last(), b2.drop_last());
        lemma_pmul_congr(a.last(), a2.last(), b.last(), b2.last());
        lemma_padd_congr(
            dot(a.drop_last(), b.drop_last()),
            dot(a2.drop_last(), b2.drop_last()),
            pmul(a.last(), b.last()),
            pmul(a2.last(), b2.last()),
        );
    }
}

/// An inner product of nonnegative well-formed entries is nonnegative.
pub proof fn lemma_dot_nonneg(a: Seq<(int, int)>, b: Seq<(int, int)>)
    requires
        entries_wf(a),
        entries_wf(b),
        entries_nonneg(a),
        entries_nonneg(b),
        a.len() == b.len(),
    ensures
        pnonneg(dot(a, b)),
    decreases a.len(),
{
    if a.len() == 0 {
    } else {
        assert(forall|i: int| 0 <= i < a.drop_last().len() ==> a.drop_last()[i] == a[i]);
        assert(forall|i: int| 0 <= i < b.drop_last().len() ==> b.drop_last()[i] == b[i]);
        lemma_dot_nonneg(a.drop_last(), b.drop_last());
        lemma_dot_wf(a.drop_last(), b.drop_last());
        lemma_pops_wf(a.last(), b.last());
        assert(pnonneg(pmul(a.last(), b.last()))) by (nonlinear_arith)
            requires a.last().0 >= 0, b.last().0 >= 0;
        lemma_padd_nonneg(dot(a.drop_last(), b.drop_last()), pmul(a.last(), b.last()));
    }
}

/// For nonnegative well-formed factors, every prefix inner product is
/// bounded by the whole inner product, componentwise.
pub proof fn lemma_dot_prefix_bounds(a: Seq<(int, int)>, b: Seq<(int, int)>, k: int)
    requires
        entries_wf(a),
        entries_wf(b),
        entries_nonneg(a),
        entries_nonneg(b),
        a.len() == b.len(),
        0 <= k <= a.len(),
    ensures
        0 <= dot(a.take(k), b.take(k)).0 <= dot(a, b).0,
        0 < dot(a.take(k), b.take(k)).1 <= dot(a, b).1,
    decreases a.len(),
{
    if k == a.len() {
        assert(a.take(k) =~= a);
        assert(b.take(k) =~= b);
        lemma_dot_wf(a, b);
        lemma_dot_nonneg(a, b);
    } else {
        assert(a.take(k) =~= a.drop_last().take(k));
        assert(b.take(k) =~= b.drop_last().take(k));
        assert(forall|i: int| 0 <= i < a.drop_last().len() ==> a.drop_last()[i] == a[i]);
        assert(forall|i: int| 0 <= i < b.drop_last().len() ==> b.drop_last()[i] == b[i]);
        lemma_dot_prefix_bounds(a.drop_last(), b.drop_last(), k);
        lemma_dot_wf(a.drop_last(), b.drop_last());
        lemma_dot_nonneg(a.drop_last(), b.drop_last());
        lemma_pops_wf(a.last(), b.last());
        let vp = dot(a.drop_last(), b.drop_last());
        let t = pmul(a.last(), b.last());
        assert(dot(a, b) == padd(vp, t));
        assert(t.0 >= 0 && t.1 >= 1 && vp.0 <= vp.0 * t.1 + t.0 * vp.1 && vp.1 <= vp.1 * t.1)
            by (nonlinear_arith)
            requires
                vp.0 >= 0,
                vp.1 > 0,
                a.last().0 >= 0,
                b.last().0 >= 0,
                a.last().1 >= 1,
                b.last().1 >= 1,
                t == (a.last().0 * b.last().0, a.last().1 * b.last().1);
    }
}

/// One more pair of factors extends a prefix inner product.
pub proof fn lemma_dot_take_succ(a: Seq<(int, int)>, b: Seq<(int, int)>, k: int)
    requires
        0 <= k < a.len(),
        0 <= k < b.len(),
    ensures
        dot(a.take(k + 1), b.take(k + 1)) == padd(dot(a.take(k), b.take(k)), pmul(a[k], b[k])),
{
    assert(a.take(k + 1).drop_last() =~= a.take(k));
    assert(b.take(k + 1).drop_last() =~= b.take(k));
    assert(a.take(k + 1).last() == a[k]);
    assert(b.take(k + 1).last() == b[k]);
}

/// A matrix sum of well-formed entries is well-formed.
pub proof fn lemma_msum_wf(m: Seq<Seq<(int, int)>>)
    requires
        mat_entries_wf(m),
    ensures
        pwf(msum(m)),
    decreases m.len(),
{
    if m.len() == 0 {
    } else {
        assert(forall|i: int| 0 <= i < m.drop_last().len() ==> m.drop_last()[i] == m[i]);
        lemma_msum_wf(m.drop_last());
        lemma_vsum_wf(m.last());
        lemma_pops_wf(msum(m.drop_last()), vsum(m.last()));
    }
}

/// One more row extends a prefix matrix sum.
pub proof fn lemma_msum_take_succ(m: Seq<Seq<(int, int)>>, k: int)
    requires
        0 <= k < m.len(),
    ensures
        msum(m.take(k + 1)) == padd(msum(m.take(k)), vsum(m[k])),
{
    assert(m.take(k + 1).drop_last() =~= m.take(k));
    assert(m.take(k + 1).last() == m[k]);
}

/// For a nonnegative well-formed matrix, every prefix of the row-by-row
/// total is bounded by the whole total, componentwise.
pub proof fn lemma_msum_prefix_bounds(m: Seq<Seq<(int, int)>>, k: int)
    requires
        mat_entries_wf(m),
        mat_entries_nonneg(m),
        0 <= k <= m.len(),
    ensures
        0 <= msum(m.take(k)).0 <= msum(m).0,
        0 < msum(m.take(k)).1 <= msum(m).1,
    decreases m.len(),
{
    assert forall|i: int| 0 <= i < m.len() implies entries_nonneg(#[trigger] m[i]) && entries_wf(
        m[i],
    ) by {
        assert forall|q: int| 0 <= q < m[i].len() implies pnonneg(#[trigger] m[i][q]) by {
            assert(pnonneg(m[i][q]));
        }
    }
    if k == m.len() {
        assert(m.take(k) =~= m);
        lemma_msum_wf(m);
        lemma_msum_nonneg(m);
    } else {
        assert(m.take(k) =~= m.drop_last().take(k));
        assert(forall|i: int| 0 <= i < m.drop_last().len() ==> m.drop_last()[i] == m[i]);
        lemma_msum_prefix_bounds(m.drop_last(), k);
        lemma_msum_wf(m.drop_last());
        lemma_msum_nonneg(m.drop_last());
        lemma_vsum_wf(m.last());
        lemma_vsum_nonneg(m.last());
        let vp = msum(m.drop_last());
        let xl = vsum(m.last());
        assert(msum(m) == padd(vp, xl));
        assert(vp.0 <= vp.0 * xl.1 + xl.0 * vp.1 && vp.1 <= vp.1 * xl.1) by (nonlinear_arith)
            requires
                vp.0 >= 0,
                vp.1 > 0,
                xl.0 >= 0,
                xl.1 >= 1;
    }
}

/// A nonnegative well-formed matrix has a nonnegative row-by-row total.
pub proof fn lemma_msum_nonneg(m: Seq<Seq<(int, int)>>)
    requires
        mat_entries_wf(m),
        mat_entries_nonneg(m),
    ensures
        pnonneg(msum(m)),
    decreases m.len(),
{
    if m.len() > 0 {
        assert(forall|i: int| 0 <= i < m.drop_last().len() ==> m.drop_last()[i] == m[i]);
        lemma_msum_nonneg(m.drop_last());
        lemma_msum_wf(m.drop_last());
        assert forall|q: int| 0 <= q < m.last().len() implies pnonneg(#[trigger] m.last()[q]) by {
            assert(m.last() == m[m.len() - 1]);
        }
        lemma_vsum_wf(m.last());
        lemma_vsum_nonneg(m.last());
        lemma_padd_nonneg(msum(m.drop_last()), vsum(m.last()));
    }
}

/// In-range flat offsets stay below the buffer length.
proof fn lemma_flat_bounds(i: int, j: int, rows: int, cols: int)
    requires
        0 <= i < rows,
        0 <= j < cols,
    ensures
        0 <= j * rows + i < rows * cols,
{
    assert(0 <= j * rows + i < rows * cols) by (nonlinear_arith)
        requires
            0 <= i < rows,
            0 <= j < cols;
}

/// Distinct in-range coordinates have distinct flat offsets.
proof fn lemma_flat_inj(i: int, j: int, i2: int, j2: int, rows: int, cols: int)
    requires
        0 <= i < rows,
        0 <= j < cols,
        0 <= i2 < rows,
        0 <= j2 < cols,
        j * rows + i == j2 * rows + i2,
    ensures
        i == i2,
        j == j2,
{
    assert(i == i2 && j == j2) by (nonlinear_arith)
        requires
            0 <= i < rows,
            0 <= j < cols,
            0 <= i2 < rows,
            0 <= j2 < cols,
            j * rows + i == j2 * rows + i2;
}

/// A dense matrix of exact rationals over a flat column-major buffer.
pub struct Matrix {
    rows: usize,
    cols: usize,
    data: Vec<Rat>,
}

impl View for Matrix {
    type V = Seq<Seq<(int, int)>>;

    closed spec fn view(&self) -> Seq<Seq<(int, int)>> {
        Seq::new(
            self.rows as nat,
            |i: int|
                Seq::new(
                    self.cols as nat,
                    |j: int| self.data@[j * (self.rows as int) + i]@,
                ),
        )
    }
}

impl Matrix {
    /// Row count, as seen by specifications.
    pub closed spec fn snrows(self) -> int {
        self.rows as int
    }

    /// Column count, as seen by specifications.
    pub closed spec fn sncols(self) -> int {
        self.cols as int
    }

    pub closed spec fn backing_wf(self) -> bool {
        &&& self.data@.len() == (self.rows as int) * (self.cols as int)
        &&& rats_wf(self.data@)
    }

    /// The matrix is well-formed: the buffer matches the dimensions and every
    /// stored scalar is well-formed, so every entry fits the scalar range.
    pub open spec fn wf(self) -> bool {
        &&& self.backing_wf()
        &&& mat_dims(self@, self.snrows(), self.sncols())
        &&& mat_entries_wf(self@)
        &&& mat_entries_fit(self@)
    }

    proof fn lemma_view_entry(self, i: int, j: int)
        requires
            self.backing_wf(),
            0 <= i < self.snrows(),
            0 <= j < self.sncols(),
        ensures
            0 <= j * self.snrows() + i < self.data@.len(),
            self.data@.len() <= usize::MAX as int,
            self@[i][j] == self.data@[j * self.snrows() + i]@,
    {
        lemma_flat_bounds(i, j, self.snrows(), self.sncols());
        assert(self.data.len() == self.data@.len());
    }

    proof fn lemma_wf_from_backing(self)
        requires
            self.backing_wf(),
        ensures
            self.wf(),
    {
        assert forall|i: int, j: int|
            0 <= i < self.snrows() && 0 <= j < self.sncols() implies pwf(self@[i][j]) by {
            self.lemma_view_entry(i, j);
        }
        assert forall|i: int| 0 <= i < self.snrows() implies entries_wf(#[trigger] self@[i]) by {
            assert forall|j: int| 0 <= j < self@[i].len() implies pwf(#[trigger] self@[i][j]) by {
                self.lemma_view_entry(i, j);
            }
        }
        assert forall|i: int, j: int|
            0 <= i < self@.len() && 0 <= j < self@[i].len() implies fits(
            #[trigger] self@[i][j],
        ) by {
            self.lemma_view_entry(i, j);
        }
    }

    /// Number of rows.
    pub fn nrows(&self) -> (r: usize)
        ensures
            r as int == self.snrows(),
    {
        self.rows
    }

    /// Number of columns.
    pub fn ncols(&self) -> (r: usize)
        ensures
            r as int == self.sncols(),
    {
        self.cols
    }

    /// Read the entry at row `r`, column `c`.
    pub fn get(&self, r: usize, c: usize) -> (v: Rat)
        requires
            self.wf(),
            (r as int) < self.snrows(),
            (c as int) < self.sncols(),
        ensures
            v@ == self@[r as int][c as int],
            v.wf(),
    {
        proof {
            self.lemma_view_entry(r as int, c as int);
        }
        self.data[c * self.rows + r]
    }

    /// Write the entry at row `r`, column `c`.
    pub fn set(&mut self, r: usize, c: usize, v: Rat)
        requires
            old(self).wf(),
            (r as int) < old(self).snrows(),
            (c as int) < old(self).sncols(),
            v.wf(),
        ensures
            final(self).wf(),
            final(self).snrows() == old(self).snrows(),
            final(self).sncols() == old(self).sncols(),
            final(self)@[r as int][c as int] == v@,
            forall|i: int, j: int|
                0 <= i < old(self).snrows() && 0 <= j < old(self).sncols() && !(i == r as int && j
                    == c as int) ==> final(self)@[i][j] == old(self)@[i][j],
    {
        proof {
            old(self).lemma_view_entry(r as int, c as int);
        }
        let idx: usize = c * self.rows + r;
        self.data.set(idx, v);
        proof {
            self.lemma_view_entry(r as int, c as int);
            assert forall|i: int, j: int|
                0 <= i < old(self).snrows() && 0 <= j < old(self).sncols() && !(i == r as int && j
                    == c as int) implies self@[i][j] == old(self)@[i][j] by {
                old(self).lemma_view_entry(i, j);
                self.lemma_view_entry(i, j);
                if j * (old(self).snrows()) + i == idx as int {
                    lemma_flat_inj(
                        i,
                        j,
                        r as int,
                        c as int,
                        old(self).snrows(),
                        old(self).sncols(),
                    );
                }
            }
            self.lemma_wf_from_backing();
        }
    }

    /// A matrix of the given shape filled with zeros.
    pub fn zeros(rows: usize, cols: usize) -> (m: Matrix)
        requires
            (rows as int) * (cols as int) <= usize::MAX as int,
        ensures
            m.wf(),
            m.snrows() == rows as int,
            m.sncols() == cols as int,
            forall|i: int, j: int|
                0 <= i < rows as int && 0 <= j < cols as int ==> m@[i][j] == pzero(),
    {
        let total: usize = rows * cols;
        let mut data: Vec<Rat> = Vec::new();
        let mut k: usize = 0;
        while k < total
            invariant
                k <= total,
                data@.len() == k as int,
                forall|t: int|
                    0 <= t < k as int ==> (#[trigger] data@[t]).wf() && data@[t]@ == pzero(),
            decreases total - k,
        {
            data.push(Rat::zero());
            k = k + 1;
        }
        let m = Matrix { rows, cols, data };
        proof {
            m.lemma_wf_from_backing();
            assert forall|i: int, j: int|
                0 <= i < rows as int && 0 <= j < cols as int implies m@[i][j] == pzero() by {
                m.lemma_view_entry(i, j);
            }
        }
        m
    }

    /// The `n` by `n` identity matrix.
    pub fn identity(n: usize) -> (m: Matrix)
        requires
            (n as int) * (n as int) <= usize::MAX as int,
        ensures
            m.wf(),
            m.snrows() == n as int,
            m.sncols() == n as int,
            forall|i: int, j: int|
                0 <= i < n as int && 0 <= j < n as int ==> m@[i][j] == (if i == j {
                    pone()
                } else {
                    pzero()
                }),
    {
        let mut m = Matrix::zeros(n, n);
        let mut d: usize = 0;
        while d < n
            invariant
                d <= n,
                m.wf(),
                m.snrows() == n as int,
                m.sncols() == n as int,
                forall|i: int, j: int|
                    0 <= i < n as int && 0 <= j < n as int ==> m@[i][j] == (if i == j && i
                        < d as int {
                        pone()
                    } else {
                        pzero()
                    }),
            decreases n - d,
        {
            m.set(d, d, Rat::one());
            d = d + 1;
        }
        m
    }

    /// An owned copy with the same shape and entries.
    pub fn duplicate(&self) -> (m: Matrix)
        requires
            self.wf(),
        ensures
            m.wf(),
            m.snrows() == self.snrows(),
            m.sncols() == self.sncols(),
            m@ == self@,
    {
        let mut data: Vec<Rat> = Vec::new();
        let len: usize = self.data.len();
        let mut k: usize = 0;
        while k < len
            invariant
                k <= len,
                len as int == self.data@.len(),
                data@.len() == k as int,
                forall|t: int| 0 <= t < k as int ==> data@[t] == self.data@[t],
            decreases len - k,
        {
            data.push(self.data[k]);
            k = k + 1;
        }
        let m = Matrix { rows: self.rows, cols: self.cols, data };
        proof {
            assert(m.data@ =~= self.data@);
            m.lemma_wf_from_backing();
            assert(m@ =~~= self@);
        }
        m
    }

    /// Build a matrix from a column-major buffer of scalars; fails exactly
    /// when the buffer length does not match the shape.
    pub fn from_rats(rows: usize, cols: usize, entries: Vec<Rat>) -> (r: Option<Matrix>)
        requires
            rats_wf(entries@),
        ensures
            r matches Some(m) ==> m.wf() && m.snrows() == rows as int && m.sncols() == cols as int
                && forall|i: int, j: int|
                0 <= i < rows as int && 0 <= j < cols as int ==> m@[i][j] == entries@[j * (
                rows as int) + i]@,
            r is Some <==> entries@.len() == (rows as int) * (cols as int),
    {
        let total = rows.checked_mul(cols);
        match total {
            None => {
                proof {
                    assert(entries.len() == entries@.len());
                }
                None
            },
            Some(t) => {
                if entries.len() == t {
                    let m = Matrix { rows, cols, data: entries };
                    proof {
                        m.lemma_wf_from_backing();
                        assert forall|i: int, j: int|
                            0 <= i < rows as int && 0 <= j < cols as int implies m@[i][j]
                            == entries@[j * (rows as int) + i]@ by {
                            m.lemma_view_entry(i, j);
                        }
                    }
                    Some(m)
                } else {
                    None
                }
            },
        }
    }

    /// Exchange rows `r1` and `r2`.
    pub fn swap_rows(&mut self, r1: usize, r2: usize)
        requires
            old(self).wf(),
            (r1 as int) < old(self).snrows(),
            (r2 as int) < old(self).snrows(),
        ensures
            final(self).wf(),
            final(self).snrows() == old(self).snrows(),
            final(self).sncols() == old(self).sncols(),
            forall|i: int, j: int|
                0 <= i < old(self).snrows() && 0 <= j < old(self).sncols()
                    ==> final(self)@[i][j] == (if i == r1 as int {
                    old(self)@[r2 as int][j]
                } else if i == r2 as int {
                    old(self)@[r1 as int][j]
                } else {
                    old(self)@[i][j]
                }),
    {
        if r1 == r2 {
            return ;
        }
        let cols: usize = self.ncols();
        let mut j: usize = 0;
        while j < cols
            invariant
                j <= cols,
                cols as int == old(self).sncols(),
                r1 != r2,
                (r1 as int) < old(self).snrows(),
                (r2 as int) < old(self).snrows(),
                self.wf(),
                self.snrows() == old(self).snrows(),
                self.sncols() == old(self).sncols(),
                forall|i: int, jj: int|
                    0 <= i < old(self).snrows() && 0 <= jj < old(self).sncols() ==> self@[i][jj]
                        == (if i == r1 as int && jj < j as int {
                        old(self)@[r2 as int][jj]
                    } else if i == r2 as int && jj < j as int {
                        old(self)@[r1 as int][jj]
                    } else {
                        old(self)@[i][jj]
                    }),
            decreases cols - j,
        {
            let a = self.get(r1, j);
            let b = self.get(r2, j);
            self.set(r1, j, b);
            self.set(r2, j, a);
            j = j + 1;
        }
    }
}


impl Matrix {
    /// The backing buffer bounds the product of the dimensions.
    pub proof fn lemma_size_bound(self)
        requires
            self.wf(),
        ensures
            self.snrows() * self.sncols() <= usize::MAX as int,
    {
        assert(self.data.len() == self.data@.len());
    }

    /// Rows of a well-formed matrix are well-formed entry sequences.
    pub proof fn lemma_row_wf(self, i: int)
        requires
            self.wf(),
            0 <= i < self.snrows(),
        ensures
            entries_wf(srow(self@, i)),
            srow(self@, i).len() == self.sncols(),
    {
    }

    /// Columns of a well-formed matrix are well-formed entry sequences.
    pub proof fn lemma_col_wf(self, j: int)
        requires
            self.wf(),
            0 <= j < self.sncols(),
        ensures
            entries_wf(scol(self@, j)),
            scol(self@, j).len() == self.snrows(),
    {
        assert forall|q: int| 0 <= q < scol(self@, j).len() implies pwf(
            #[trigger] scol(self@, j)[q],
        ) by {
            assert(entries_wf(self@[q]));
            assert(scol(self@, j)[q] == self@[q][j]);
        }
    }

    /// Exact matrix product; `None` only when an intermediate value leaves
    /// the representable range.
    pub fn mat_mul(&self, other: &Matrix) -> (r: Option<Matrix>)
        requires
            self.wf(),
            other.wf(),
            self.sncols() == other.snrows(),
            self.snrows() * other.sncols() <= usize::MAX as int,
        ensures
            r matches Some(m) ==> m.wf() && m.snrows() == self.snrows() && m.sncols()
                == other.sncols() && forall|i: int, j: int|
                0 <= i < self.snrows() && 0 <= j < other.sncols() ==> peq(
                    #[trigger] m@[i][j],
                    dot(srow(self@, i), scol(other@, j)),
                ),
    {
        let nr: usize = self.nrows();
        let nk: usize = self.ncols();
        let nc: usize = other.ncols();
        let mut m = Matrix::zeros(nr, nc);
        let mut i: usize = 0;
        while i < nr
            invariant
                i <= nr,
                self.wf(),
                other.wf(),
                m.wf(),
                nr as int == self.snrows(),
                nk as int == self.sncols(),
                nc as int == other.sncols(),
                self.sncols() == other.snrows(),
                m.snrows() == nr as int,
                m.sncols() == nc as int,
                forall|a: int, b: int|
                    0 <= a < i as int && 0 <= b < nc as int ==> peq(
                        #[trigger] m@[a][b],
                        dot(srow(self@, a), scol(other@, b)),
                    ),
            decreases nr - i,
        {
            let mut j: usize = 0;
            while j < nc
                invariant
                    i < nr,
                    j <= nc,
                    self.wf(),
                    other.wf(),
                    m.wf(),
                    nr as int == self.snrows(),
                    nk as int == self.sncols(),
                    nc as int == other.sncols(),
                    self.sncols() == other.snrows(),
                    m.snrows() == nr as int,
                    m.sncols() == nc as int,
                    forall|a: int, b: int|
                        0 <= a < i as int && 0 <= b < nc as int ==> peq(
                            #[trigger] m@[a][b],
                            dot(srow(self@, a), scol(other@, b)),
                        ),
                    forall|b: int|
                        0 <= b < j as int ==> peq(
                            #[trigger] m@[i as int][b],
                            dot(srow(self@, i as int), scol(other@, b)),
                        ),
                decreases nc - j,
            {
                let ghost ra = srow(self@, i as int);
                let ghost cb = scol(other@, j as int);
                proof {
                    self.lemma_row_wf(i as int);
                    other.lemma_col_wf(j as int);
                }
                let mut acc: Rat = Rat::zero();
                let mut k: usize = 0;
                while k < nk
                    invariant
                        i < nr,
                        j < nc,
                        k <= nk,
                        self.wf(),
                        other.wf(),
                        nr as int == self.snrows(),
                        nk as int == self.sncols(),
                        nc as int == other.sncols(),
                        self.sncols() == other.snrows(),
                        ra == srow(self@, i as int),
                        cb == scol(other@, j as int),
                        entries_wf(ra),
                        entries_wf(cb),
                        ra.len() == nk as int,
                        cb.len() == nk as int,
                        acc.wf(),
                        peq(acc@, dot(ra.take(k as int), cb.take(k as int))),
                        pwf(dot(ra.take(k as int), cb.take(k as int))),
                    decreases nk - k,
                {
                    let x = self.get(i, k);
                    let y = other.get(k, j);
                    let t = match x.checked_mul(&y) {
                        None => { return None; },
                        Some(t) => t,
                    };
                    let acc2 = match acc.checked_add(&t) {
                        None => { return None; },
                        Some(a) => a,
                    };
                    proof {
                        let ki = k as int;
                        lemma_dot_take_succ(ra, cb, ki);
                        assert(ra[ki] == self@[i as int][ki]);
                        assert(cb[ki] == other@[ki][j as int]);
                        crate::rational::lemma_pops_wf(acc@, t@);
                        lemma_padd_congr(
                            acc@,
                            dot(ra.take(ki), cb.take(ki)),
                            t@,
                            pmul(ra[ki], cb[ki]),
                        );
                        lemma_peq_trans(
                            acc2@,
                            padd(acc@, t@),
                            dot(ra.take(ki + 1), cb.take(ki + 1)),
                        );
                        assert(forall|q: int|
                            0 <= q < ra.take(ki + 1).len() ==> ra.take(ki + 1)[q] == ra[q]);
                        assert(forall|q: int|
                            0 <= q < cb.take(ki + 1).len() ==> cb.take(ki + 1)[q] == cb[q]);
                        lemma_dot_wf(ra.take(ki + 1), cb.take(ki + 1));
                    }
                    acc = acc2;
                    k = k + 1;
                }
                proof {
                    lemma_take_full(ra);
                    lemma_take_full(cb);
                    assert(peq(acc@, dot(ra, cb)));
                }
                m.set(i, j, acc);
                j = j + 1;
            }
            i = i + 1;
        }
        Some(m)
    }

    /// Exact elementwise sum of two matrices of the same shape. When every
    /// entrywise sum fits the scalar range, the sum is returned.
    pub fn mat_add(&self, other: &Matrix) -> (r: Option<Matrix>)
        requires
            self.wf(),
            other.wf(),
            self.snrows() == other.snrows(),
            self.sncols() == other.sncols(),
        ensures
            r matches Some(m) ==> m.wf() && m.snrows() == self.snrows() && m.sncols()
                == self.sncols() && forall|i: int, j: int|
                0 <= i < self.snrows() && 0 <= j < self.sncols() ==> peq(
                    #[trigger] m@[i][j],
                    padd(self@[i][j], other@[i][j]),
                ),
            (forall|i: int, j: int|
                0 <= i < self.snrows() && 0 <= j < self.sncols() ==> fits(
                    #[trigger] padd(self@[i][j], other@[i][j]),
                )) ==> r is Some,
    {
        let nr: usize = self.nrows();
        let nc: usize = self.ncols();
        proof {
            self.lemma_size_bound();
        }
        let mut m = Matrix::zeros(nr, nc);
        let mut i: usize = 0;
        while i < nr
            invariant
                i <= nr,
                self.wf(),
                other.wf(),
                m.wf(),
                nr as int == self.snrows(),
                nc as int == self.sncols(),
                self.snrows() == other.snrows(),
                self.sncols() == other.sncols(),
                m.snrows() == nr as int,
                m.sncols() == nc as int,
                forall|a: int, b: int|
                    0 <= a < i as int && 0 <= b < nc as int ==> peq(
                        #[trigger] m@[a][b],
                        padd(self@[a][b], other@[a][b]),
                    ),
            decreases nr - i,
        {
            let mut j: usize = 0;
            while j < nc
                invariant
                    i < nr,
                    j <= nc,
                    self.wf(),
                    other.wf(),
                    m.wf(),
                    nr as int == self.snrows(),
                    nc as int == self.sncols(),
                    self.snrows() == other.snrows(),
                    self.sncols() == other.sncols(),
                    m.snrows() == nr as int,
                    m.sncols() == nc as int,
                    forall|a: int, b: int|
                        0 <= a < i as int && 0 <= b < nc as int ==> peq(
                            #[trigger] m@[a][b],
                            padd(self@[a][b], other@[a][b]),
                        ),
                    forall|b: int|
                        0 <= b < j as int ==> peq(
                            #[trigger] m@[i as int][b],
                            padd(self@[i as int][b], other@[i as int][b]),
                        ),
                decreases nc - j,
            {
                let x = self.get(i, j);
                let y = other.get(i, j);
                let q = x.checked_add(&y);
                proof {
                    if forall|a2: int, b2: int|
                        0 <= a2 < self.snrows() && 0 <= b2 < self.sncols() ==> fits(
                            #[trigger] padd(self@[a2][b2], other@[a2][b2]),
                        ) {
                        assert(fits(padd(self@[i as int][j as int], other@[i as int][j as int])));
                    }
                }
                let t = match q {
                    None => { return None; },
                    Some(t) => t,
                };
                m.set(i, j, t);
                j = j + 1;
            }
            i = i + 1;
        }
        Some(m)
    }

    /// The matrix `I - self`, exactly.
    pub fn ident_minus(&self) -> (r: Option<Matrix>)
        requires
            self.wf(),
            self.snrows() == self.sncols(),
        ensures
            r matches Some(m) ==> m.wf() && m.snrows() == self.snrows() && m.sncols()
                == self.sncols() && forall|i: int, j: int|
                0 <= i < self.snrows() && 0 <= j < self.sncols() ==> peq(
                    #[trigger] m@[i][j],
                    sident_minus(self@)[i][j],
                ),
            (forall|i: int, j: int|
                0 <= i < self.snrows() && 0 <= j < self.sncols() ==> fits(
                    #[trigger] sident_minus(self@)[i][j],
                )) ==> r is Some,
    {
        let n: usize = self.nrows();
        proof {
            self.lemma_size_bound();
        }
        let mut m = Matrix::zeros(n, n);
        let one = Rat::one();
        let zero = Rat::zero();
        let mut i: usize = 0;
        while i < n
            invariant
                i <= n,
                self.wf(),
                m.wf(),
                one.wf(),
                one@ == pone(),
                zero.wf(),
                zero@ == pzero(),
                n as int == self.snrows(),
                self.snrows() == self.sncols(),
                m.snrows() == n as int,
                m.sncols() == n as int,
                forall|a: int, b: int|
                    0 <= a < i as int && 0 <= b < n as int ==> peq(
                        #[trigger] m@[a][b],
                        sident_minus(self@)[a][b],
                    ),
            decreases n - i,
        {
            let mut j: usize = 0;
            while j < n
                invariant
                    i < n,
                    j <= n,
                    self.wf(),
                    m.wf(),
                    one.wf(),
                    one@ == pone(),
                    zero.wf(),
                    zero@ == pzero(),
                    n as int == self.snrows(),
                    self.snrows() == self.sncols(),
                    m.snrows() == n as int,
                    m.sncols() == n as int,
                    forall|a: int, b: int|
                        0 <= a < i as int && 0 <= b < n as int ==> peq(
                            #[trigger] m@[a][b],
                            sident_minus(self@)[a][b],
                        ),
                    forall|b: int|
                        0 <= b < j as int ==> peq(
                            #[trigger] m@[i as int][b],
                            sident_minus(self@)[i as int][b],
                        ),
                decreases n - j,
            {
                let e = self.get(i, j);
                let d: Rat = if i == j {
                    one
                } else {
                    zero
                };
                let q = d.checked_sub(&e);
                proof {
                    let ii = i as int;
                    let jj = j as int;
                    assert(sident_minus(self@)[ii][jj] == psub(
                        if ii == jj {
                            pone()
                        } else {
                            pzero()
                        },
                        self@[ii][jj],
                    ));
                    if i != j {
                        assert(fits(psub(pzero(), self@[ii][jj])));
                    } else if forall|a: int, b: int|
                        0 <= a < self.snrows() && 0 <= b < self.sncols() ==> fits(
                            #[trigger] sident_minus(self@)[a][b],
                        ) {
                        assert(fits(sident_minus(self@)[ii][jj]));
                    }
                }
                let t: Rat = match q {
                    None => { return None; },
                    Some(t) => t,
                };
                m.set(i, j, t);
                j = j + 1;
            }
            i = i + 1;
        }
        Some(m)
    }

    /// The matrix with column `j` replaced by zeros.
    pub fn with_zero_col(&self, j: usize) -> (m: Matrix)
        requires
            self.wf(),
            (j as int) < self.sncols(),
        ensures
            m.wf(),
            m.snrows() == self.snrows(),
            m.sncols() == self.sncols(),
            forall|i: int, k: int|
                0 <= i < self.snrows() && 0 <= k < self.sncols() ==> m@[i][k] == szero_col(
                    self@,
                    j as int,
                )[i][k],
    {
        let nr: usize = self.nrows();
        let mut m = self.duplicate();
        let mut i: usize = 0;
        while i < nr
            invariant
                i <= nr,
                self.wf(),
                m.wf(),
                (j as int) < self.sncols(),
                nr as int == self.snrows(),
                m.snrows() == self.snrows(),
                m.sncols() == self.sncols(),
                forall|a: int, k: int|
                    0 <= a < self.snrows() && 0 <= k < self.sncols() ==> m@[a][k] == (if k
                        == j as int && a < i as int {
                        pzero()
                    } else {
                        self@[a][k]
                    }),
            decreases nr - i,
        {
            m.set(i, j, Rat::zero());
            i = i + 1;
        }
        m
    }

    /// The matrix with row `i` replaced by zeros.
    pub fn with_zero_row(&self, i: usize) -> (m: Matrix)
        requires
            self.wf(),
            (i as int) < self.snrows(),
        ensures
            m.wf(),
            m.snrows() == self.snrows(),
            m.sncols() == self.sncols(),
            forall|x: int, k: int|
                0 <= x < self.snrows() && 0 <= k < self.sncols() ==> m@[x][k] == szero_row(
                    self@,
                    i as int,
                )[x][k],
    {
        let nc: usize = self.ncols();
        let mut m = self.duplicate();
        let mut k: usize = 0;
        while k < nc
            invariant
                k <= nc,
                self.wf(),
                m.wf(),
                (i as int) < self.snrows(),
                nc as int == self.sncols(),
                m.snrows() == self.snrows(),
                m.sncols() == self.sncols(),
                forall|x: int, c: int|
                    0 <= x < self.snrows() && 0 <= c < self.sncols() ==> m@[x][c] == (if x
                        == i as int && c < k as int {
                        pzero()
                    } else {
                        self@[x][c]
                    }),
            decreases nc - k,
        {
            m.set(i, k, Rat::zero());
            k = k + 1;
        }
        m
    }

    /// Exact sum of row `i`. When the row is nonnegative and its sum fits
    /// the scalar range, the sum is returned, bounded by its pair.
    pub fn row_sum(&self, i: usize) -> (r: Option<Rat>)
        requires
            self.wf(),
            (i as int) < self.snrows(),
        ensures
            r matches Some(s) ==> s.wf() && peq(s@, vsum(srow(self@, i as int))),
            entries_nonneg(srow(self@, i as int)) && fits(vsum(srow(self@, i as int))) ==> r
                is Some,
            r matches Some(s) ==> (entries_nonneg(srow(self@, i as int)) ==> 0 <= s@.0 <= vsum(
                srow(self@, i as int),
            ).0 && 0 < s@.1 <= vsum(srow(self@, i as int)).1),
    {
        let ghost ra = srow(self@, i as int);
        proof {
            self.lemma_row_wf(i as int);
            assert(ra.take(0).len() == 0);
        }
        let nc: usize = self.ncols();
        let mut acc: Rat = Rat::zero();
        let mut j: usize = 0;
        while j < nc
            invariant
                j <= nc,
                self.wf(),
                (i as int) < self.snrows(),
                nc as int == self.sncols(),
                ra == srow(self@, i as int),
                entries_wf(ra),
                ra.len() == nc as int,
                acc.wf(),
                peq(acc@, vsum(ra.take(j as int))),
                pwf(vsum(ra.take(j as int))),
                entries_nonneg(ra) ==> (0 <= acc@.0 <= vsum(ra.take(j as int)).0 && 0 < acc@.1
                    <= vsum(ra.take(j as int)).1),
            decreases nc - j,
        {
            let x = self.get(i, j);
            proof {
                let ji = j as int;
                lemma_vsum_take_succ(ra, ji);
                assert(ra[ji] == self@[i as int][ji]);
                if entries_nonneg(ra) {
                    assert(pnonneg(ra[ji]));
                    assert(0 <= padd(acc@, x@).0 <= vsum(ra.take(ji + 1)).0 && 0 < padd(
                        acc@,
                        x@,
                    ).1 <= vsum(ra.take(ji + 1)).1) by (nonlinear_arith)
                        requires
                            padd(acc@, x@) == (acc@.0 * x@.1 + x@.0 * acc@.1, acc@.1 * x@.1),
                            vsum(ra.take(ji + 1)) == (vsum(ra.take(ji)).0 * ra[ji].1 + ra[ji].0
                                * vsum(ra.take(ji)).1, vsum(ra.take(ji)).1 * ra[ji].1),
                            x@ == ra[ji],
                            0 <= acc@.0 <= vsum(ra.take(ji)).0,
                            0 < acc@.1 <= vsum(ra.take(ji)).1,
                            x@.0 >= 0,
                            x@.1 >= 1;
                    if fits(vsum(ra)) {
                        lemma_vsum_prefix_bounds(ra, ji + 1);
                        assert(fits(padd(acc@, x@)));
                    }
                }
            }
            let acc2 = match acc.checked_add(&x) {
                None => { return None; },
                Some(a) => a,
            };
            proof {
                let ji = j as int;
                lemma_vsum_take_succ(ra, ji);
                assert(ra[ji] == self@[i as int][ji]);
                crate::rational::lemma_pops_wf(acc@, x@);
                lemma_padd_congr(acc@, vsum(ra.take(ji)), x@, ra[ji]);
                lemma_peq_trans(acc2@, padd(acc@, x@), vsum(ra.take(ji + 1)));
                assert(forall|q: int|
                    0 <= q < ra.take(ji + 1).len() ==> ra.take(ji + 1)[q] == ra[q]);
                lemma_vsum_wf(ra.take(ji + 1));
            }
            acc = acc2;
            j = j + 1;
        }
        proof {
            lemma_take_full(ra);
        }
        Some(acc)
    }

    /// Exact sum of column `j`. When the column is nonnegative and its sum
    /// fits the scalar range, the sum is returned, bounded by its pair.
    pub fn col_sum(&self, j: usize) -> (r: Option<Rat>)
        requires
            self.wf(),
            (j as int) < self.sncols(),
        ensures
            r matches Some(s) ==> s.wf() && peq(s@, vsum(scol(self@, j as int))),
            entries_nonneg(scol(self@, j as int)) && fits(vsum(scol(self@, j as int))) ==> r
                is Some,
            r matches Some(s) ==> (entries_nonneg(scol(self@, j as int)) ==> 0 <= s@.0 <= vsum(
                scol(self@, j as int),
            ).0 && 0 < s@.1 <= vsum(scol(self@, j as int)).1),
    {
        let ghost cb = scol(self@, j as int);
        proof {
            self.lemma_col_wf(j as int);
            assert(cb.take(0).len() == 0);
        }
        let nr: usize = self.nrows();
        let mut acc: Rat = Rat::zero();
        let mut i: usize = 0;
        while i < nr
            invariant
                i <= nr,
                self.wf(),
                (j as int) < self.sncols(),
                nr as int == self.snrows(),
                cb == scol(self@, j as int),
                entries_wf(cb),
                cb.len() == nr as int,
                acc.wf(),
                peq(acc@, vsum(cb.take(i as int))),
                pwf(vsum(cb.take(i as int))),
                entries_nonneg(cb) ==> (0 <= acc@.0 <= vsum(cb.take(i as int)).0 && 0 < acc@.1
                    <= vsum(cb.take(i as int)).1),
            decreases nr - i,
        {
            let x = self.get(i, j);
            proof {
                let ii = i as int;
                lemma_vsum_take_succ(cb, ii);
                assert(cb[ii] == self@[ii][j as int]);
                if entries_nonneg(cb) {
                    assert(pnonneg(cb[ii]));
                    assert(0 <= padd(acc@, x@).0 <= vsum(cb.take(ii + 1)).0 && 0 < padd(
                        acc@,
                        x@,
                    ).1 <= vsum(cb.take(ii + 1)).1) by (nonlinear_arith)
                        requires
                            padd(acc@, x@) == (acc@.0 * x@.1 + x@.0 * acc@.1, acc@.1 * x@.1),
                            vsum(cb.take(ii + 1)) == (vsum(cb.take(ii)).0 * cb[ii].1 + cb[ii].0
                                * vsum(cb.take(ii)).1, vsum(cb.take(ii)).1 * cb[ii].1),
                            x@ == cb[ii],
                            0 <= acc@.0 <= vsum(cb.take(ii)).0,
                            0 < acc@.1 <= vsum(cb.take(ii)).1,
                            x@.0 >= 0,
                            x@.1 >= 1;
                    if fits(vsum(cb)) {
                        lemma_vsum_prefix_bounds(cb, ii + 1);
                        assert(fits(padd(acc@, x@)));
                    }
                }
            }
            let acc2 = match acc.checked_add(&x) {
                None => { return None; },
                Some(a) => a,
            };
            proof {
                let ii = i as int;
                lemma_vsum_take_succ(cb, ii);
                assert(cb[ii] == self@[ii][j as int]);
                crate::rational::lemma_pops_wf(acc@, x@);
                lemma_padd_congr(acc@, vsum(cb.take(ii)), x@, cb[ii]);
                lemma_peq_trans(acc2@, padd(acc@, x@), vsum(cb.take(ii + 1)));
                assert(forall|q: int|
                    0 <= q < cb.take(ii + 1).len() ==> cb.take(ii + 1)[q] == cb[q]);
                lemma_vsum_wf(cb.take(ii + 1));
            }
            acc = acc2;
            i = i + 1;
        }
        proof {
            lemma_take_full(cb);
        }
        Some(acc)
    }

    /// Exact sum of all entries. When the matrix is nonnegative and its
    /// total fits the scalar range, the total is returned, bounded by its
    /// pair.
    pub fn sum_all(&self) -> (r: Option<Rat>)
        requires
            self.wf(),
        ensures
            r matches Some(s) ==> s.wf() && peq(s@, msum(self@)),
            mat_entries_nonneg(self@) && fits(msum(self@)) ==> r is Some,
            r matches Some(s) ==> (mat_entries_nonneg(self@) ==> 0 <= s@.0 <= msum(self@).0 && 0
                < s@.1 <= msum(self@).1),
    {
        proof {
            assert(self@.take(0).len() == 0);
        }
        let nr: usize = self.nrows();
        let mut acc: Rat = Rat::zero();
        let mut i: usize = 0;
        while i < nr
            invariant
                i <= nr,
                self.wf(),
                nr as int == self.snrows(),
                acc.wf(),
                peq(acc@, msum(self@.take(i as int))),
                pwf(msum(self@.take(i as int))),
                mat_entries_nonneg(self@) ==> (0 <= acc@.0 <= msum(self@.take(i as int)).0 && 0
                    < acc@.1 <= msum(self@.take(i as int)).1),
            decreases nr - i,
        {
            proof {
                if mat_entries_nonneg(self@) {
                    let ii = i as int;
                    assert forall|q: int| 0 <= q < srow(self@, ii).len() implies pnonneg(
                        #[trigger] srow(self@, ii)[q],
                    ) by {
                        assert(srow(self@, ii)[q] == self@[ii][q]);
                    }
                    assert(entries_nonneg(srow(self@, ii)));
                    self.lemma_row_wf(ii);
                    lemma_vsum_wf(srow(self@, ii));
                    lemma_vsum_nonneg(srow(self@, ii));
                    if fits(msum(self@)) {
                        lemma_msum_prefix_bounds(self@, ii + 1);
                        lemma_msum_take_succ(self@, ii);
                        let vp = msum(self@.take(ii));
                        let xl = vsum(self@[ii]);
                        assert(msum(self@.take(ii + 1)) == padd(vp, xl));
                        assert(xl.0 <= vp.0 * xl.1 + xl.0 * vp.1 && xl.1 <= vp.1 * xl.1)
                            by (nonlinear_arith)
                            requires
                                vp.0 >= 0,
                                vp.1 >= 1,
                                xl.0 >= 0,
                                xl.1 >= 1;
                        assert(fits(xl));
                    }
                }
            }
            let rs = match self.row_sum(i) {
                None => { return None; },
                Some(s) => s,
            };
            proof {
                if mat_entries_nonneg(self@) {
                    let ii = i as int;
                    lemma_msum_take_succ(self@, ii);
                    let vp = msum(self@.take(ii));
                    let xl = vsum(self@[ii]);
                    assert(0 <= rs@.0 <= xl.0 && 0 < rs@.1 <= xl.1);
                    assert(0 <= padd(acc@, rs@).0 <= msum(self@.take(ii + 1)).0 && 0 < padd(
                        acc@,
                        rs@,
                    ).1 <= msum(self@.take(ii + 1)).1) by (nonlinear_arith)
                        requires
                            padd(acc@, rs@) == (acc@.0 * rs@.1 + rs@.0 * acc@.1, acc@.1 * rs@.1),
                            msum(self@.take(ii + 1)) == (vp.0 * xl.1 + xl.0 * vp.1, vp.1 * xl.1),
                            0 <= acc@.0 <= vp.0,
                            0 < acc@.1 <= vp.1,
                            0 <= rs@.0 <= xl.0,
                            0 < rs@.1 <= xl.1,
                            xl.0 >= 0,
                            xl.1 >= 1;
                    if fits(msum(self@)) {
                        lemma_msum_prefix_bounds(self@, ii + 1);
                        assert(fits(padd(acc@, rs@)));
                    }
                }
            }
            let acc2 = match acc.checked_add(&rs) {
                None => { return None; },
                Some(a) => a,
            };
            proof {
                let ii = i as int;
                lemma_msum_take_succ(self@, ii);
                crate::rational::lemma_pops_wf(acc@, rs@);
                self.lemma_row_wf(ii);
                lemma_vsum_wf(srow(self@, ii));
                lemma_padd_congr(acc@, msum(self@.take(ii)), rs@, vsum(self@[ii]));
                lemma_peq_trans(acc2@, padd(acc@, rs@), msum(self@.take(ii + 1)));
                assert(forall|q: int|
                    0 <= q < self@.take(ii + 1).len() ==> self@.take(ii + 1)[q] == self@[q]);
                assert(mat_entries_wf(self@.take(ii + 1)));
                lemma_msum_wf(self@.take(ii + 1));
            }
            acc = acc2;
            i = i + 1;
        }
        proof {
            assert(self@.take(self@.len() as int) =~= self@);
        }
        Some(acc)
    }

    /// Exact product of the matrix with a column vector.
    pub fn mat_vec_mul(&self, v: &Vec<Rat>) -> (r: Option<Vec<Rat>>)
        requires
            self.wf(),
            v@.len() == self.sncols(),
            rats_wf(v@),
        ensures
            r matches Some(out) ==> out@.len() == self.snrows() && rats_wf(out@) && forall|i: int|
                0 <= i < self.snrows() ==> peq(
                    (#[trigger] out@[i])@,
                    dot(srow(self@, i), rats(v@)),
                ),
    {
        let nr: usize = self.nrows();
        let nk: usize = self.ncols();
        let mut out: Vec<Rat> = Vec::new();
        let mut i: usize = 0;
        while i < nr
            invariant
                i <= nr,
                self.wf(),
                v@.len() == self.sncols(),
                rats_wf(v@),
                nr as int == self.snrows(),
                nk as int == self.sncols(),
                out@.len() == i as int,
                rats_wf(out@),
                forall|a: int|
                    0 <= a < i as int ==> peq((#[trigger] out@[a])@, dot(srow(self@, a), rats(v@))),
            decreases nr - i,
        {
            let ghost ra = srow(self@, i as int);
            let ghost vb = rats(v@);
            proof {
                self.lemma_row_wf(i as int);
                assert forall|q: int| 0 <= q < vb.len() implies pwf(#[trigger] vb[q]) by {
                    assert(vb[q] == v@[q]@);
                }
            }
            let mut acc: Rat = Rat::zero();
            let mut k: usize = 0;
            while k < nk
                invariant
                    i < nr,
                    k <= nk,
                    self.wf(),
                    v@.len() == self.sncols(),
                    rats_wf(v@),
                    nr as int == self.snrows(),
                    nk as int == self.sncols(),
                    ra == srow(self@, i as int),
                    vb == rats(v@),
                    entries_wf(ra),
                    entries_wf(vb),
                    ra.len() == nk as int,
                    vb.len() == nk as int,
                    acc.wf(),
                    peq(acc@, dot(ra.take(k as int), vb.take(k as int))),
                    pwf(dot(ra.take(k as int), vb.take(k as int))),
                decreases nk - k,
            {
                let x = self.get(i, k);
                let y = v[k];
                let t = match x.checked_mul(&y) {
                    None => { return None; },
                    Some(t) => t,
                };
                let acc2 = match acc.checked_add(&t) {
                    None => { return None; },
                    Some(a) => a,
                };
                proof {
                    let ki = k as int;
                    lemma_dot_take_succ(ra, vb, ki);
                    assert(ra[ki] == self@[i as int][ki]);
                    assert(vb[ki] == v@[ki]@);
                    crate::rational::lemma_pops_wf(acc@, t@);
                    lemma_padd_congr(acc@, dot(ra.take(ki), vb.take(ki)), t@, pmul(ra[ki], vb[ki]));
                    lemma_peq_trans(acc2@, padd(acc@, t@), dot(ra.take(ki + 1), vb.take(ki + 1)));
                    assert(forall|q: int|
                        0 <= q < ra.take(ki + 1).len() ==> ra.take(ki + 1)[q] == ra[q]);
                    assert(forall|q: int|
                        0 <= q < vb.take(ki + 1).len() ==> vb.take(ki + 1)[q] == vb[q]);
                    lemma_dot_wf(ra.take(ki + 1), vb.take(ki + 1));
                }
                acc = acc2;
                k = k + 1;
            }
            proof {
                lemma_take_full(ra);
                lemma_take_full(vb);
            }
            out.push(acc);
            i = i + 1;
        }
        Some(out)
    }

    /// Exact product of a row vector with the matrix.
    pub fn vec_mat_mul(&self, v: &Vec<Rat>) -> (r: Option<Vec<Rat>>)
        requires
            self.wf(),
            v@.len() == self.snrows(),
            rats_wf(v@),
        ensures
            r matches Some(out) ==> out@.len() == self.sncols() && rats_wf(out@) && forall|j: int|
                0 <= j < self.sncols() ==> peq(
                    (#[trigger] out@[j])@,
                    dot(rats(v@), scol(self@, j)),
                ),
            (mat_entries_nonneg(self@) && entries_nonneg(rats(v@)) && (forall|j: int|
                0 <= j < self.sncols() ==> fits(#[trigger] dot(rats(v@), scol(self@, j)))))
                ==> r is Some,
            r matches Some(out) ==> ((mat_entries_nonneg(self@) && entries_nonneg(rats(v@)))
                ==> forall|j: int|
                0 <= j < self.sncols() ==> 0 <= (#[trigger] out@[j])@.0 <= dot(
                    rats(v@),
                    scol(self@, j),
                ).0 && 0 < out@[j]@.1 <= dot(rats(v@), scol(self@, j)).1),
    {
        let nc: usize = self.ncols();
        let nk: usize = self.nrows();
        let mut out: Vec<Rat> = Vec::new();
        let mut j: usize = 0;
        while j < nc
            invariant
                j <= nc,
                self.wf(),
                v@.len() == self.snrows(),
                rats_wf(v@),
                nc as int == self.sncols(),
                nk as int == self.snrows(),
                out@.len() == j as int,
                rats_wf(out@),
                forall|a: int|
                    0 <= a < j as int ==> peq((#[trigger] out@[a])@, dot(rats(v@), scol(self@, a))),
                (mat_entries_nonneg(self@) && entries_nonneg(rats(v@))) ==> forall|a: int|
                    0 <= a < j as int ==> 0 <= (#[trigger] out@[a])@.0 <= dot(
                        rats(v@),
                        scol(self@, a),
                    ).0 && 0 < out@[a]@.1 <= dot(rats(v@), scol(self@, a)).1,
            decreases nc - j,
        {
            let ghost cb = scol(self@, j as int);
            let ghost vb = rats(v@);
            proof {
                self.lemma_col_wf(j as int);
                assert forall|q: int| 0 <= q < vb.len() implies pwf(#[trigger] vb[q]) by {
                    assert(vb[q] == v@[q]@);
                }
                if mat_entries_nonneg(self@) {
                    assert forall|q: int| 0 <= q < cb.len() implies pnonneg(#[trigger] cb[q]) by {
                        assert(cb[q] == self@[q][j as int]);
                    }
                }
                assert(vb.take(0).len() == 0 && cb.take(0).len() == 0);
            }
            let mut acc: Rat = Rat::zero();
            let mut k: usize = 0;
            while k < nk
                invariant
                    j < nc,
                    k <= nk,
                    self.wf(),
                    v@.len() == self.snrows(),
                    rats_wf(v@),
                    nc as int == self.sncols(),
                    nk as int == self.snrows(),
                    cb == scol(self@, j as int),
                    vb == rats(v@),
                    entries_wf(cb),
                    entries_wf(vb),
                    cb.len() == nk as int,
                    vb.len() == nk as int,
                    acc.wf(),
                    peq(acc@, dot(vb.take(k as int), cb.take(k as int))),
                    pwf(dot(vb.take(k as int), cb.take(k as int))),
                    (entries_nonneg(vb) && entries_nonneg(cb)) ==> (0 <= acc@.0 <= dot(
                        vb.take(k as int),
                        cb.take(k as int),
                    ).0 && 0 < acc@.1 <= dot(vb.take(k as int), cb.take(k as int)).1),
                decreases nk - k,
            {
                let x = v[k];
                let y = self.get(k, j);
                proof {
                    let ki = k as int;
                    lemma_dot_take_succ(vb, cb, ki);
                    assert(vb[ki] == v@[ki]@);
                    assert(cb[ki] == self@[ki][j as int]);
                    if entries_nonneg(vb) && entries_nonneg(cb) {
                        assert(pnonneg(vb[ki]) && pnonneg(cb[ki]));
                        assert(pmul(x@, y@) == (vb[ki].0 * cb[ki].0, vb[ki].1 * cb[ki].1));
                        let dk = dot(vb.take(ki), cb.take(ki));
                        let dk1 = dot(vb.take(ki + 1), cb.take(ki + 1));
                        assert(dk1 == padd(dk, pmul(vb[ki], cb[ki])));
                        assert(0 <= pmul(x@, y@).0 && 0 < pmul(x@, y@).1 && pmul(x@, y@).0 <= dk1.0
                            && pmul(x@, y@).1 <= dk1.1) by (nonlinear_arith)
                            requires
                                pmul(x@, y@) == (vb[ki].0 * cb[ki].0, vb[ki].1 * cb[ki].1),
                                dk1 == (dk.0 * (vb[ki].1 * cb[ki].1) + (vb[ki].0 * cb[ki].0)
                                    * dk.1, dk.1 * (vb[ki].1 * cb[ki].1)),
                                vb[ki].0 >= 0,
                                cb[ki].0 >= 0,
                                vb[ki].1 >= 1,
                                cb[ki].1 >= 1,
                                dk.0 >= 0,
                                dk.1 >= 1;
                        if forall|q: int|
                            0 <= q < self.sncols() ==> fits(
                                #[trigger] dot(rats(v@), scol(self@, q)),
                            ) {
                            assert(fits(dot(vb, cb)));
                            lemma_dot_prefix_bounds(vb, cb, ki + 1);
                            assert(fits(pmul(x@, y@)));
                        }
                    }
                }
                let t = match x.checked_mul(&y) {
                    None => { return None; },
                    Some(t) => t,
                };
                proof {
                    let ki = k as int;
                    if entries_nonneg(vb) && entries_nonneg(cb) {
                        let dk = dot(vb.take(ki), cb.take(ki));
                        let dk1 = dot(vb.take(ki + 1), cb.take(ki + 1));
                        assert(0 <= padd(acc@, t@).0 <= dk1.0 && 0 < padd(acc@, t@).1 <= dk1.1)
                            by (nonlinear_arith)
                            requires
                                padd(acc@, t@) == (acc@.0 * t@.1 + t@.0 * acc@.1, acc@.1 * t@.1),
                                dk1 == (dk.0 * pmul(vb[ki], cb[ki]).1 + pmul(vb[ki], cb[ki]).0
                                    * dk.1, dk.1 * pmul(vb[ki], cb[ki]).1),
                                0 <= acc@.0 <= dk.0,
                                0 < acc@.1 <= dk.1,
                                0 <= t@.0 <= pmul(vb[ki], cb[ki]).0,
                                0 < t@.1 <= pmul(vb[ki], cb[ki]).1,
                                pmul(vb[ki], cb[ki]).0 >= 0,
                                pmul(vb[ki], cb[ki]).1 >= 1;
                        if forall|q: int|
                            0 <= q < self.sncols() ==> fits(
                                #[trigger] dot(rats(v@), scol(self@, q)),
                            ) {
                            assert(fits(dot(vb, cb)));
                            lemma_dot_prefix_bounds(vb, cb, ki + 1);
                            assert(fits(padd(acc@, t@)));
                        }
                    }
                }
                let acc2 = match acc.checked_add(&t) {
                    None => { return None; },
                    Some(a) => a,
                };
                proof {
                    let ki = k as int;
                    lemma_dot_take_succ(vb, cb, ki);
                    assert(vb[ki] == v@[ki]@);
                    assert(cb[ki] == self@[ki][j as int]);
                    crate::rational::lemma_pops_wf(acc@, t@);
                    lemma_padd_congr(acc@, dot(vb.take(ki), cb.take(ki)), t@, pmul(vb[ki], cb[ki]));
                    lemma_peq_trans(acc2@, padd(acc@, t@), dot(vb.take(ki + 1), cb.take(ki + 1)));
                    assert(forall|q: int|
                        0 <= q < vb.take(ki + 1).len() ==> vb.take(ki + 1)[q] == vb[q]);
                    assert(forall|q: int|
                        0 <= q < cb.take(ki + 1).len() ==> cb.take(ki + 1)[q] == cb[q]);
                    lemma_dot_wf(vb.take(ki + 1), cb.take(ki + 1));
                }
                acc = acc2;
                k = k + 1;
            }
            proof {
                lemma_take_full(cb);
                lemma_take_full(vb);
            }
            out.push(acc);
            j = j + 1;
        }
        Some(out)
    }

    /// Decide whether every entry equals the matching identity entry.
    pub fn equals_identity(&self) -> (r: bool)
        requires
            self.wf(),
            self.snrows() == self.sncols(),
        ensures
            r == mat_peq(self@, sident(self.snrows() as nat)),
    {
        let n: usize = self.nrows();
        let ghost idm = sident(self.snrows() as nat);
        let mut i: usize = 0;
        while i < n
            invariant
                i <= n,
                self.wf(),
                self.snrows() == self.sncols(),
                n as int == self.snrows(),
                idm == sident(self.snrows() as nat),
                forall|a: int, b: int|
                    0 <= a < i as int && 0 <= b < n as int ==> peq(#[trigger] self@[a][b], idm[a][b]),
            decreases n - i,
        {
            let mut j: usize = 0;
            while j < n
                invariant
                    i < n,
                    j <= n,
                    self.wf(),
                    self.snrows() == self.sncols(),
                    n as int == self.snrows(),
                    idm == sident(self.snrows() as nat),
                    forall|a: int, b: int|
                        0 <= a < i as int && 0 <= b < n as int ==> peq(
                            #[trigger] self@[a][b],
                            idm[a][b],
                        ),
                    forall|b: int|
                        0 <= b < j as int ==> peq(#[trigger] self@[i as int][b], idm[i as int][b]),
                decreases n - j,
            {
                let e = self.get(i, j);
                let ok: bool;
                proof {
                    assert(idm[i as int][j as int] == (if i as int == j as int {
                        pone()
                    } else {
                        pzero()
                    }));
                }
                if i == j {
                    ok = e.numerator() == e.denominator();
                    proof {
                        assert(ok == (e@.0 == e@.1));
                        assert(peq(e@, pone()) == (e@.0 * 1int == 1int * e@.1));
                        assert(ok == peq(e@, pone()));
                    }
                } else {
                    ok = e.is_zero();
                    proof {
                        assert(peq(e@, pzero()) == (e@.0 * 1int == 0int * e@.1));
                        assert(ok == peq(e@, pzero()));
                    }
                }
                if !ok {
                    proof {
                        assert(!peq(self@[i as int][j as int], idm[i as int][j as int]));
                    }
                    return false;
                }
                proof {
                    assert(peq(self@[i as int][j as int], idm[i as int][j as int]));
                }
                j = j + 1;
            }
            i = i + 1;
        }
        true
    }
}

/// Exact sum of a vector of scalars.
pub fn vec_sum(v: &Vec<Rat>) -> (r: Option<Rat>)
    requires
        rats_wf(v@),
    ensures
        r matches Some(s) ==> s.wf() && peq(s@, vsum(rats(v@))),
        entries_nonneg(rats(v@)) && fits(vsum(rats(v@))) ==> r is Some,
        r matches Some(s) ==> (entries_nonneg(rats(v@)) ==> 0 <= s@.0 <= vsum(rats(v@)).0 && 0
            < s@.1 <= vsum(rats(v@)).1),
{
    let ghost vb = rats(v@);
    proof {
        assert forall|q: int| 0 <= q < vb.len() implies pwf(#[trigger] vb[q]) by {
            assert(vb[q] == v@[q]@);
        }
        assert(vb.take(0).len() == 0);
    }
    let len: usize = v.len();
    let mut acc: Rat = Rat::zero();
    let mut k: usize = 0;
    while k < len
        invariant
            k <= len,
            rats_wf(v@),
            len as int == v@.len(),
            vb == rats(v@),
            entries_wf(vb),
            vb.len() == len as int,
            acc.wf(),
            peq(acc@, vsum(vb.take(k as int))),
            pwf(vsum(vb.take(k as int))),
            entries_nonneg(vb) ==> (0 <= acc@.0 <= vsum(vb.take(k as int)).0 && 0 < acc@.1
                <= vsum(vb.take(k as int)).1),
        decreases len - k,
    {
        let x = v[k];
        proof {
            let ki = k as int;
            lemma_vsum_take_succ(vb, ki);
            assert(vb[ki] == v@[ki]@);
            if entries_nonneg(vb) {
                assert(pnonneg(vb[ki]));
                assert(0 <= padd(acc@, x@).0 <= vsum(vb.take(ki + 1)).0 && 0 < padd(acc@, x@).1
                    <= vsum(vb.take(ki + 1)).1) by (nonlinear_arith)
                    requires
                        padd(acc@, x@) == (acc@.0 * x@.1 + x@.0 * acc@.1, acc@.1 * x@.1),
                        vsum(vb.take(ki + 1)) == (vsum(vb.take(ki)).0 * vb[ki].1 + vb[ki].0
                            * vsum(vb.take(ki)).1, vsum(vb.take(ki)).1 * vb[ki].1),
                        x@ == vb[ki],
                        0 <= acc@.0 <= vsum(vb.take(ki)).0,
                        0 < acc@.1 <= vsum(vb.take(ki)).1,
                        x@.0 >= 0,
                        x@.1 >= 1;
                if fits(vsum(vb)) {
                    lemma_vsum_prefix_bounds(vb, ki + 1);
                    assert(fits(padd(acc@, x@)));
                }
            }
        }
        let acc2 = match acc.checked_add(&x) {
            None => { return None; },
            Some(a) => a,
        };
        proof {
            let ki = k as int;
            lemma_vsum_take_succ(vb, ki);
            assert(vb[ki] == v@[ki]@);
            crate::rational::lemma_pops_wf(acc@, x@);
            lemma_padd_congr(acc@, vsum(vb.take(ki)), x@, vb[ki]);
            lemma_peq_trans(acc2@, padd(acc@, x@), vsum(vb.take(ki + 1)));
            assert(forall|q: int| 0 <= q < vb.take(ki + 1).len() ==> vb.take(ki + 1)[q] == vb[q]);
            lemma_vsum_wf(vb.take(ki + 1));
        }
        acc = acc2;
        k = k + 1;
    }
    proof {
        lemma_take_full(vb);
    }
    Some(acc)
}



/// An inverse certificate transfers across entrywise-equal base matrices.
pub proof fn lemma_is_inverse_congr(
    m1: Seq<Seq<(int, int)>>,
    m2: Seq<Seq<(int, int)>>,
    x: Seq<Seq<(int, int)>>,
    n: nat,
)
    requires
        is_inverse(m1, x, n),
        mat_peq(m1, m2),
        mat_entries_wf(m1),
        mat_entries_wf(m2),
    ensures
        is_inverse(m2, x, n),
{
    assert forall|i: int| 0 <= i < n implies (#[trigger] m2[i]).len() == n as int by {
        assert(m1[i].len() == m2[i].len());
        assert(m1[i].len() == n as int);
    }
    assert(mat_dims(m2, n as int, n as int));
    assert forall|i: int, j: int| 0 <= i < n && 0 <= j < n implies peq(
        #[trigger] smat_mul(m2, x, n)[i][j],
        sident(n)[i][j],
    ) by {
        assert(smat_mul(m2, x, n)[i][j] == dot(srow(m2, i), scol(x, j)));
        assert(smat_mul(m1, x, n)[i][j] == dot(srow(m1, i), scol(x, j)));
        assert(entries_wf(srow(m1, i)));
        assert(entries_wf(srow(m2, i)));
        assert forall|q: int| 0 <= q < scol(x, j).len() implies pwf(#[trigger] scol(x, j)[q]) by {
            assert(entries_wf(x[q]));
            assert(scol(x, j)[q] == x[q][j]);
        }
        assert forall|q: int| 0 <= q < n implies peq(
            #[trigger] srow(m2, i)[q],
            srow(m1, i)[q],
        ) by {
            assert(peq(m1[i][q], m2[i][q]));
        }
        lemma_dot_congr(srow(m2, i), srow(m1, i), scol(x, j), scol(x, j));
        lemma_dot_wf(srow(m1, i), scol(x, j));
        assert(peq(smat_mul(m1, x, n)[i][j], sident(n)[i][j]));
        lemma_peq_trans(
            dot(srow(m2, i), scol(x, j)),
            dot(srow(m1, i), scol(x, j)),
            sident(n)[i][j],
        );
    }
    assert forall|i: int, j: int| 0 <= i < n && 0 <= j < n implies peq(
        #[trigger] smat_mul(x, m2, n)[i][j],
        sident(n)[i][j],
    ) by {
        assert(smat_mul(x, m2, n)[i][j] == dot(srow(x, i), scol(m2, j)));
        assert(smat_mul(x, m1, n)[i][j] == dot(srow(x, i), scol(m1, j)));
        assert(entries_wf(srow(x, i)));
        assert forall|q: int| 0 <= q < scol(m1, j).len() implies pwf(
            #[trigger] scol(m1, j)[q],
        ) by {
            assert(entries_wf(m1[q]));
            assert(scol(m1, j)[q] == m1[q][j]);
        }
        assert forall|q: int| 0 <= q < scol(m2, j).len() implies pwf(
            #[trigger] scol(m2, j)[q],
        ) by {
            assert(entries_wf(m2[q]));
            assert(scol(m2, j)[q] == m2[q][j]);
        }
        assert forall|q: int| 0 <= q < n implies peq(
            #[trigger] scol(m2, j)[q],
            scol(m1, j)[q],
        ) by {
            assert(peq(m1[q][j], m2[q][j]));
            assert(scol(m2, j)[q] == m2[q][j]);
            assert(scol(m1, j)[q] == m1[q][j]);
        }
        lemma_dot_congr(srow(x, i), srow(x, i), scol(m2, j), scol(m1, j));
        lemma_dot_wf(srow(x, i), scol(m1, j));
        assert(peq(smat_mul(x, m1, n)[i][j], sident(n)[i][j]));
        lemma_peq_trans(
            dot(srow(x, i), scol(m2, j)),
            dot(srow(x, i), scol(m1, j)),
            sident(n)[i][j],
        );
    }
    assert(mat_peq(smat_mul(m2, x, n), sident(n)));
    assert(mat_peq(smat_mul(x, m2, n), sident(n)));
}


} // verus!
