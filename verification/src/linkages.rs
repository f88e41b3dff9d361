//! Linkage statistics over an inverse matrix: averages, forward and backward
//! linkages, and squared coefficients of variation of dispersion.
//!
//! The coefficient-of-variation statistics are exposed as exact squares: the
//! square root of an exact rational is in general irrational, so the engine
//! reports the squared coefficient and leaves the root to the caller's
//! floating-point layer.

use vstd::prelude::*;
use crate::error::FioError;
use crate::matrix::Matrix;
use crate::matrix::rats;
use crate::matrix::rats_wf;
use crate::matrix::scol;
use crate::matrix::srow;
use crate::matrix::msum;
use crate::matrix::vsum;
use crate::matrix::vec_sum;
use crate::matrix::lemma_vsum_wf;
use crate::matrix::lemma_vsum_congr;
use crate::matrix::lemma_msum_wf;
use crate::matrix::lemma_msum_nonneg;
use crate::matrix::entries_nonneg;
use crate::matrix::mat_entries_nonneg;
use crate::matrix::lemma_vsum_nonneg;
use crate::rational::Rat;
use crate::rational::peq;
use crate::rational::pwf;
use crate::rational::pdiv;
use crate::rational::pfrom;
use crate::rational::pmul;
use crate::rational::psub;
use crate::rational::pzero;
use crate::rational::pnonneg;
use crate::rational::fits;
use crate::rational::lemma_peq_trans;
use crate::rational::lemma_pdiv_congr;
use crate::rational::lemma_pdiv_wf;
use crate::rational::lemma_pops_wf;
use crate::rational::lemma_pmul_congr;
use crate::rational::lemma_padd_congr;

verus! {

/// Average of all entries of `l` (over `cells` entries).
pub open spec fn savg(l: Seq<Seq<(int, int)>>, cells: int) -> (int, int) {
    pdiv(msum(l), pfrom(cells))
}

/// Average of row `i`.
pub open spec fn sravg(l: Seq<Seq<(int, int)>>, i: int) -> (int, int) {
    pdiv(vsum(srow(l, i)), pfrom(l.len() as int))
}

/// Average of column `j`.
pub open spec fn scavg(l: Seq<Seq<(int, int)>>, j: int) -> (int, int) {
    pdiv(vsum(scol(l, j)), pfrom(l.len() as int))
}

/// Deviations of column `j` from its average.
pub open spec fn scdev(l: Seq<Seq<(int, int)>>, j: int) -> Seq<(int, int)> {
    Seq::new(l.len(), |i: int| psub(l[i][j], scavg(l, j)))
}

/// Deviations of row `i` from its average.
pub open spec fn srdev(l: Seq<Seq<(int, int)>>, i: int) -> Seq<(int, int)> {
    Seq::new(l.len(), |j: int| psub(l[i][j], sravg(l, i)))
}

/// Elementwise squares.
pub open spec fn ssq(s: Seq<(int, int)>) -> Seq<(int, int)> {
    Seq::new(s.len(), |i: int| pmul(s[i], s[i]))
}

/// Squared coefficient of variation of column `j`: the sum of squared
/// deviations over `n - 1`, divided by the squared column average.
pub open spec fn scv2_col(l: Seq<Seq<(int, int)>>, j: int) -> (int, int) {
    pdiv(
        pdiv(vsum(ssq(scdev(l, j))), pfrom(l.len() as int - 1)),
        pmul(scavg(l, j), scavg(l, j)),
    )
}

/// Squared coefficient of variation of row `i`: the sum of squared
/// deviations over `n - 1`, divided by the squared row average.
pub open spec fn scv2_row(l: Seq<Seq<(int, int)>>, i: int) -> (int, int) {
    pdiv(
        pdiv(vsum(ssq(srdev(l, i))), pfrom(l.len() as int - 1)),
        pmul(sravg(l, i), sravg(l, i)),
    )
}

/// The inputs on which the row-side dispersion ratios are guaranteed to be
/// computed: a nonnegative square matrix whose matrix average, row averages
/// and ratio pairs all stay inside the scalar range.
pub open spec fn dispersion_rows_computable(l: Seq<Seq<(int, int)>>, n: int) -> bool {
    &&& 1 <= n <= 0x7fff_ffff_ffff_ffff
    &&& mat_entries_nonneg(l)
    &&& fits(pdiv(msum(l), pfrom(n * n)))
    &&& forall|i: int| 0 <= i < n ==> fits(#[trigger] pdiv(vsum(srow(l, i)), pfrom(n)))
    &&& forall|i: int| 0 <= i < n ==> fits(#[trigger] pdiv(sravg(l, i), savg(l, n * n)))
}

/// The column-side analogue of `dispersion_rows_computable`.
pub open spec fn dispersion_cols_computable(l: Seq<Seq<(int, int)>>, n: int) -> bool {
    &&& 1 <= n <= 0x7fff_ffff_ffff_ffff
    &&& mat_entries_nonneg(l)
    &&& fits(pdiv(msum(l), pfrom(n * n)))
    &&& forall|j: int| 0 <= j < n ==> fits(#[trigger] pdiv(vsum(scol(l, j)), pfrom(n)))
    &&& forall|j: int| 0 <= j < n ==> fits(#[trigger] pdiv(scavg(l, j), savg(l, n * n)))
}

/// Average of every entry of the matrix.
///
/// Fails with `Degenerate` on an empty matrix (no entries to average) and
/// with `NumericalInstability` only when an exact value leaves the
/// representable range.
pub fn compute_leontief_inverse_average(l: &Matrix) -> (r: Result<Rat, FioError>)
    requires
        l.wf(),
    ensures
        r matches Ok(a) ==> a.wf() && peq(a@, savg(l@, l.snrows() * l.sncols())),
        (r == Err::<Rat, FioError>(FioError::Degenerate)) <==> (l.snrows() == 0 || l.sncols()
            == 0),
        r is Err ==> r == Err::<Rat, FioError>(FioError::Degenerate) || r == Err::<Rat, FioError>(
            FioError::NumericalInstability,
        ),
        (l.snrows() >= 1 && l.sncols() >= 1 && mat_entries_nonneg(l@) && fits(
            pdiv(msum(l@), pfrom(l.snrows() * l.sncols())),
        )) ==> r is Ok,
        r matches Ok(a) ==> (mat_entries_nonneg(l@) ==> 0 <= a@.0 <= savg(
            l@,
            l.snrows() * l.sncols(),
        ).0 && 0 < a@.1 <= savg(l@, l.snrows() * l.sncols()).1),
{
    let nr: usize = l.nrows();
    let nc: usize = l.ncols();
    if nr == 0 || nc == 0 {
        return Err(FioError::Degenerate);
    }
    proof {
        l.lemma_size_bound();
    }
    let cells: usize = nr * nc;
    proof {
        assert(cells as int >= 1) by (nonlinear_arith)
            requires
                nr as int >= 1,
                nc as int >= 1,
                cells as int == (nr as int) * (nc as int);
        if mat_entries_nonneg(l@) && fits(pdiv(msum(l@), pfrom(l.snrows() * l.sncols()))) {
            lemma_msum_wf(l@);
            lemma_msum_nonneg(l@);
            let mm = msum(l@);
            assert(pdiv(mm, pfrom(cells as int)) == (mm.0 * 1, mm.1 * (cells as int)));
            assert(mm.1 <= mm.1 * (cells as int) && cells as int <= mm.1 * (cells as int))
                by (nonlinear_arith)
                requires mm.1 >= 1, cells as int >= 1;
            assert(fits(mm));
            assert(cells as int <= 0x7fff_ffff_ffff_ffff);
        }
    }
    let total = match l.sum_all() {
        None => { return Err(FioError::NumericalInstability); },
        Some(s) => s,
    };
    let denom = match Rat::from_usize(cells) {
        None => { return Err(FioError::NumericalInstability); },
        Some(d) => d,
    };
    proof {
        if mat_entries_nonneg(l@) && fits(pdiv(msum(l@), pfrom(l.snrows() * l.sncols()))) {
            let mm = msum(l@);
            assert(pdiv(total@, denom@) == (total@.0 * 1, total@.1 * (cells as int)));
            assert(0 <= total@.0 <= mm.0 && 0 < total@.1 <= mm.1);
            assert(0 < total@.1 * (cells as int) && total@.1 * (cells as int) <= mm.1 * (
            cells as int)) by (nonlinear_arith)
                requires 0 < total@.1 <= mm.1, cells as int >= 1;
            assert(fits(pdiv(total@, denom@)));
        }
    }
    match total.checked_div(&denom) {
        None => Err(FioError::NumericalInstability),
        Some(a) => {
            proof {
                lemma_msum_wf(l@);
                assert(l.snrows() * l.sncols() > 0) by (nonlinear_arith)
                    requires l.snrows() >= 1, l.sncols() >= 1;
                lemma_pdiv_wf(total@, denom@);
                lemma_pdiv_congr(total@, msum(l@), denom@, pfrom(l.snrows() * l.sncols()));
                lemma_pdiv_wf(msum(l@), pfrom(l.snrows() * l.sncols()));
                lemma_peq_trans(a@, pdiv(total@, denom@), savg(l@, l.snrows() * l.sncols()));
                if mat_entries_nonneg(l@) {
                    let mm = msum(l@);
                    assert(pdiv(total@, denom@) == (total@.0 * 1, total@.1 * (cells as int)));
                    assert(savg(l@, l.snrows() * l.sncols()) == (mm.0 * 1, mm.1 * (
                    l.snrows() * l.sncols())));
                    assert(0 <= total@.0 <= mm.0 && 0 < total@.1 <= mm.1);
                    assert(0 < total@.1 * (cells as int) <= mm.1 * (cells as int))
                        by (nonlinear_arith)
                        requires 0 < total@.1 <= mm.1, cells as int >= 1;
                }
            }
            Ok(a)
        },
    }
}

/// Averages of every row.
pub fn compute_row_average(l: &Matrix) -> (r: Result<Vec<Rat>, FioError>)
    requires
        l.wf(),
    ensures
        r matches Ok(out) ==> out@.len() == l.snrows() && rats_wf(out@) && forall|i: int|
            0 <= i < l.snrows() ==> peq((#[trigger] out@[i])@, sravg(l@, i)),
        (r == Err::<Vec<Rat>, FioError>(FioError::Degenerate)) <==> l.snrows() == 0,
        r is Err ==> r == Err::<Vec<Rat>, FioError>(FioError::Degenerate) || r == Err::<
            Vec<Rat>,
            FioError,
        >(FioError::NumericalInstability),
        (1 <= l.snrows() <= 0x7fff_ffff_ffff_ffff && mat_entries_nonneg(l@) && (forall|i: int|
            0 <= i < l.snrows() ==> fits(
                #[trigger] pdiv(vsum(srow(l@, i)), pfrom(l@.len() as int)),
            ))) ==> r is Ok,
        r matches Ok(out) ==> (mat_entries_nonneg(l@) ==> forall|i: int|
            0 <= i < l.snrows() ==> 0 <= (#[trigger] out@[i])@.0 <= sravg(l@, i).0 && 0
                < out@[i]@.1 <= sravg(l@, i).1),
{
    let n: usize = l.nrows();
    if n == 0 {
        return Err(FioError::Degenerate);
    }
    let denom = match Rat::from_usize(n) {
        None => { return Err(FioError::NumericalInstability); },
        Some(d) => d,
    };
    let mut out: Vec<Rat> = Vec::new();
    let mut i: usize = 0;
    while i < n
        invariant
            i <= n,
            l.wf(),
            n as int == l.snrows(),
            n >= 1,
            denom.wf(),
            denom@ == pfrom(l@.len() as int),
            out@.len() == i as int,
            rats_wf(out@),
            forall|q: int| 0 <= q < i as int ==> peq((#[trigger] out@[q])@, sravg(l@, q)),
            mat_entries_nonneg(l@) ==> forall|q: int|
                0 <= q < i as int ==> 0 <= (#[trigger] out@[q])@.0 <= sravg(l@, q).0 && 0
                    < out@[q]@.1 <= sravg(l@, q).1,
        decreases n - i,
    {
        proof {
            if mat_entries_nonneg(l@) {
                let ii = i as int;
                assert forall|q: int| 0 <= q < srow(l@, ii).len() implies pnonneg(
                    #[trigger] srow(l@, ii)[q],
                ) by {
                    assert(srow(l@, ii)[q] == l@[ii][q]);
                }
                assert(entries_nonneg(srow(l@, ii)));
                if forall|q: int|
                    0 <= q < l.snrows() ==> fits(
                        #[trigger] pdiv(vsum(srow(l@, q)), pfrom(l@.len() as int)),
                    ) {
                    l.lemma_row_wf(ii);
                    lemma_vsum_wf(srow(l@, ii));
                    lemma_vsum_nonneg(srow(l@, ii));
                    let vr = vsum(srow(l@, ii));
                    assert(fits(pdiv(vr, pfrom(l@.len() as int))));
                    assert(pdiv(vr, pfrom(l@.len() as int)) == (vr.0 * 1, vr.1 * (
                    l@.len() as int)));
                    assert(vr.1 <= vr.1 * (l@.len() as int)) by (nonlinear_arith)
                        requires vr.1 >= 1, l@.len() >= 1;
                    assert(vr.0 * 1 == vr.0) by (nonlinear_arith);
                    assert(fits(vr));
                }
            }
        }
        let s = match l.row_sum(i) {
            None => { return Err(FioError::NumericalInstability); },
            Some(s) => s,
        };
        proof {
            if mat_entries_nonneg(l@) && (forall|q: int|
                0 <= q < l.snrows() ==> fits(
                    #[trigger] pdiv(vsum(srow(l@, q)), pfrom(l@.len() as int)),
                )) {
                let ii = i as int;
                let vr = vsum(srow(l@, ii));
                assert(pdiv(s@, denom@) == (s@.0 * 1, s@.1 * (l@.len() as int)));
                assert(0 <= s@.0 <= vr.0 && 0 < s@.1 <= vr.1);
                assert(0 < s@.1 * (l@.len() as int) && s@.1 * (l@.len() as int) <= vr.1 * (
                l@.len() as int)) by (nonlinear_arith)
                    requires 0 < s@.1 <= vr.1, l@.len() >= 1;
                assert(fits(pdiv(s@, denom@)));
            }
        }
        let a = match s.checked_div(&denom) {
            None => { return Err(FioError::NumericalInstability); },
            Some(a) => a,
        };
        proof {
            l.lemma_row_wf(i as int);
            lemma_vsum_wf(srow(l@, i as int));
            lemma_pdiv_wf(s@, denom@);
            lemma_pdiv_congr(s@, vsum(srow(l@, i as int)), denom@, pfrom(l@.len() as int));
            lemma_pdiv_wf(vsum(srow(l@, i as int)), pfrom(l@.len() as int));
            lemma_peq_trans(a@, pdiv(s@, denom@), sravg(l@, i as int));
            if mat_entries_nonneg(l@) {
                let ii = i as int;
                let vr = vsum(srow(l@, ii));
                assert(pdiv(s@, denom@) == (s@.0 * 1, s@.1 * (l@.len() as int)));
                assert(sravg(l@, ii) == (vr.0 * 1, vr.1 * (l@.len() as int)));
                assert(0 <= s@.0 <= vr.0 && 0 < s@.1 <= vr.1);
                assert(0 < s@.1 * (l@.len() as int) <= vr.1 * (l@.len() as int))
                    by (nonlinear_arith)
                    requires 0 < s@.1 <= vr.1, l@.len() >= 1;
                assert(s@.0 * 1 == s@.0 && vr.0 * 1 == vr.0) by (nonlinear_arith);
                assert(0 <= a@.0 <= sravg(l@, ii).0 && 0 < a@.1 <= sravg(l@, ii).1);
            }
        }
        out.push(a);
        i = i + 1;
    }
    Ok(out)
}

/// Averages of every column.
pub fn compute_col_average(l: &Matrix) -> (r: Result<Vec<Rat>, FioError>)
    requires
        l.wf(),
        l.snrows() == l.sncols(),
    ensures
        r matches Ok(out) ==> out@.len() == l.sncols() && rats_wf(out@) && forall|j: int|
            0 <= j < l.sncols() ==> peq((#[trigger] out@[j])@, scavg(l@, j)),
        (r == Err::<Vec<Rat>, FioError>(FioError::Degenerate)) <==> l.snrows() == 0,
        r is Err ==> r == Err::<Vec<Rat>, FioError>(FioError::Degenerate) || r == Err::<
            Vec<Rat>,
            FioError,
        >(FioError::NumericalInstability),
        (1 <= l.snrows() <= 0x7fff_ffff_ffff_ffff && mat_entries_nonneg(l@) && (forall|j: int|
            0 <= j < l.sncols() ==> fits(
                #[trigger] pdiv(vsum(scol(l@, j)), pfrom(l@.len() as int)),
            ))) ==> r is Ok,
        r matches Ok(out) ==> (mat_entries_nonneg(l@) ==> forall|j: int|
            0 <= j < l.sncols() ==> 0 <= (#[trigger] out@[j])@.0 <= scavg(l@, j).0 && 0
                < out@[j]@.1 <= scavg(l@, j).1),
{
    let n: usize = l.nrows();
    if n == 0 {
        return Err(FioError::Degenerate);
    }
    let denom = match Rat::from_usize(n) {
        None => { return Err(FioError::NumericalInstability); },
        Some(d) => d,
    };
    let mut out: Vec<Rat> = Vec::new();
    let mut j: usize = 0;
    while j < n
        invariant
            j <= n,
            l.wf(),
            n as int == l.snrows(),
            l.snrows() == l.sncols(),
            n >= 1,
            denom.wf(),
            denom@ == pfrom(l@.len() as int),
            out@.len() == j as int,
            rats_wf(out@),
            forall|q: int| 0 <= q < j as int ==> peq((#[trigger] out@[q])@, scavg(l@, q)),
            mat_entries_nonneg(l@) ==> forall|q: int|
                0 <= q < j as int ==> 0 <= (#[trigger] out@[q])@.0 <= scavg(l@, q).0 && 0
                    < out@[q]@.1 <= scavg(l@, q).1,
        decreases n - j,
    {
        proof {
            if mat_entries_nonneg(l@) {
                let jj = j as int;
                assert forall|q: int| 0 <= q < scol(l@, jj).len() implies pnonneg(
                    #[trigger] scol(l@, jj)[q],
                ) by {
                    assert(scol(l@, jj)[q] == l@[q][jj]);
                }
                assert(entries_nonneg(scol(l@, jj)));
                if forall|q: int|
                    0 <= q < l.sncols() ==> fits(
                        #[trigger] pdiv(vsum(scol(l@, q)), pfrom(l@.len() as int)),
                    ) {
                    l.lemma_col_wf(jj);
                    lemma_vsum_wf(scol(l@, jj));
                    lemma_vsum_nonneg(scol(l@, jj));
                    let vc = vsum(scol(l@, jj));
                    assert(fits(pdiv(vc, pfrom(l@.len() as int))));
                    assert(pdiv(vc, pfrom(l@.len() as int)) == (vc.0 * 1, vc.1 * (
                    l@.len() as int)));
                    assert(vc.1 <= vc.1 * (l@.len() as int)) by (nonlinear_arith)
                        requires vc.1 >= 1, l@.len() >= 1;
                    assert(vc.0 * 1 == vc.0) by (nonlinear_arith);
                    assert(fits(vc));
                }
            }
        }
        let s = match l.col_sum(j) {
            None => { return Err(FioError::NumericalInstability); },
            Some(s) => s,
        };
        proof {
            if mat_entries_nonneg(l@) && (forall|q: int|
                0 <= q < l.sncols() ==> fits(
                    #[trigger] pdiv(vsum(scol(l@, q)), pfrom(l@.len() as int)),
                )) {
                let jj = j as int;
                let vc = vsum(scol(l@, jj));
                assert(pdiv(s@, denom@) == (s@.0 * 1, s@.1 * (l@.len() as int)));
                assert(0 <= s@.0 <= vc.0 && 0 < s@.1 <= vc.1);
                assert(0 < s@.1 * (l@.len() as int) && s@.1 * (l@.len() as int) <= vc.1 * (
                l@.len() as int)) by (nonlinear_arith)
                    requires 0 < s@.1 <= vc.1, l@.len() >= 1;
                assert(fits(pdiv(s@, denom@)));
            }
        }
        let a = match s.checked_div(&denom) {
            None => { return Err(FioError::NumericalInstability); },
            Some(a) => a,
        };
        proof {
            l.lemma_col_wf(j as int);
            lemma_vsum_wf(scol(l@, j as int));
            lemma_pdiv_wf(s@, denom@);
            lemma_pdiv_congr(s@, vsum(scol(l@, j as int)), denom@, pfrom(l@.len() as int));
            lemma_pdiv_wf(vsum(scol(l@, j as int)), pfrom(l@.len() as int));
            lemma_peq_trans(a@, pdiv(s@, denom@), scavg(l@, j as int));
            if mat_entries_nonneg(l@) {
                let jj = j as int;
                let vc = vsum(scol(l@, jj));
                assert(pdiv(s@, denom@) == (s@.0 * 1, s@.1 * (l@.len() as int)));
                assert(scavg(l@, jj) == (vc.0 * 1, vc.1 * (l@.len() as int)));
                assert(0 <= s@.0 <= vc.0 && 0 < s@.1 <= vc.1);
                assert(0 < s@.1 * (l@.len() as int) <= vc.1 * (l@.len() as int))
                    by (nonlinear_arith)
                    requires 0 < s@.1 <= vc.1, l@.len() >= 1;
                assert(s@.0 * 1 == s@.0 && vc.0 * 1 == vc.0) by (nonlinear_arith);
                assert(0 <= a@.0 <= scavg(l@, jj).0 && 0 < a@.1 <= scavg(l@, jj).1);
            }
        }
        out.push(a);
        j = j + 1;
    }
    Ok(out)
}

/// Sensitivity of dispersion (forward linkage): each row average divided by
/// the average of the whole matrix.
pub fn compute_sensitivity_dispersion(l: &Matrix) -> (r: Result<Vec<Rat>, FioError>)
    requires
        l.wf(),
        l.snrows() == l.sncols(),
    ensures
        r matches Ok(out) ==> out@.len() == l.snrows() && rats_wf(out@) && forall|i: int|
            0 <= i < l.snrows() ==> peq(
                (#[trigger] out@[i])@,
                pdiv(sravg(l@, i), savg(l@, l.snrows() * l.sncols())),
            ),
        r is Err ==> r == Err::<Vec<Rat>, FioError>(FioError::Degenerate) || r == Err::<
            Vec<Rat>,
            FioError,
        >(FioError::NumericalInstability),
        (r == Err::<Vec<Rat>, FioError>(FioError::Degenerate)) ==> (l.snrows() == 0 || peq(
            savg(l@, l.snrows() * l.sncols()),
            pzero(),
        )),
        (dispersion_rows_computable(l@, l.snrows()) && peq(
            savg(l@, l.snrows() * l.sncols()),
            pzero(),
        )) ==> r == Err::<Vec<Rat>, FioError>(FioError::Degenerate),
        (dispersion_rows_computable(l@, l.snrows()) && !peq(
            savg(l@, l.snrows() * l.sncols()),
            pzero(),
        )) ==> r is Ok,
{
    proof {
        if dispersion_rows_computable(l@, l.snrows()) {
            assert(l.snrows() * l.snrows() == l.snrows() * l.sncols());
        }
    }
    let avg = match compute_leontief_inverse_average(l) {
        Err(e) => {
            proof {
                if dispersion_rows_computable(l@, l.snrows()) {
                    assert(fits(pdiv(msum(l@), pfrom(l.snrows() * l.sncols()))));
                    assert(false);
                }
            }
            return Err(e);
        },
        Ok(a) => a,
    };
    if avg.is_zero() {
        proof {
            lemma_msum_wf(l@);
            assert(l.snrows() * l.sncols() > 0) by (nonlinear_arith)
                requires l.snrows() >= 1, l.sncols() >= 1;
            lemma_pdiv_wf(msum(l@), pfrom(l.snrows() * l.sncols()));
            crate::rational::lemma_peq_nonzero(avg@, savg(l@, l.snrows() * l.sncols()));
            crate::rational::lemma_peq_zero(savg(l@, l.snrows() * l.sncols()));
        }
        return Err(FioError::Degenerate);
    }
    let ravg = match compute_row_average(l) {
        Err(e) => {
            proof {
                if dispersion_rows_computable(l@, l.snrows()) {
                    assert(false);
                }
                assert(e != FioError::Degenerate);
            }
            return Err(e);
        },
        Ok(v) => v,
    };
    let ghost sa = savg(l@, l.snrows() * l.sncols());
    proof {
        lemma_msum_wf(l@);
        assert(l.snrows() * l.sncols() > 0) by (nonlinear_arith)
            requires l.snrows() >= 1, l.sncols() >= 1;
        lemma_pdiv_wf(msum(l@), pfrom(l.snrows() * l.sncols()));
        assert(avg@.0 != 0);
        assert(peq(sa, avg@));
        assert(sa.0 != 0) by (nonlinear_arith)
            requires peq(sa, avg@), avg@.0 != 0, pwf(avg@), pwf(sa);
        crate::rational::lemma_peq_zero(sa);
    }
    let n: usize = l.nrows();
    let mut out: Vec<Rat> = Vec::new();
    let mut i: usize = 0;
    while i < n
        invariant
            i <= n,
            l.wf(),
            l.snrows() == l.sncols(),
            n as int == l.snrows(),
            avg.wf(),
            avg@.0 != 0,
            peq(sa, avg@),
            sa == savg(l@, l.snrows() * l.sncols()),
            pwf(sa),
            sa.0 != 0,
            mat_entries_nonneg(l@) ==> (0 <= avg@.0 <= sa.0 && 0 < avg@.1 <= sa.1),
            ravg@.len() == n as int,
            rats_wf(ravg@),
            forall|q: int| 0 <= q < n as int ==> peq((#[trigger] ravg@[q])@, sravg(l@, q)),
            mat_entries_nonneg(l@) ==> forall|q: int|
                0 <= q < n as int ==> 0 <= (#[trigger] ravg@[q])@.0 <= sravg(l@, q).0 && 0
                    < ravg@[q]@.1 <= sravg(l@, q).1,
            out@.len() == i as int,
            rats_wf(out@),
            forall|q: int|
                0 <= q < i as int ==> peq((#[trigger] out@[q])@, pdiv(sravg(l@, q), sa)),
        decreases n - i,
    {
        let q0 = ravg[i].checked_div(&avg);
        proof {
            crate::rational::lemma_peq_zero(sa);
            if dispersion_rows_computable(l@, l.snrows()) && !peq(sa, pzero()) {
                let ii = i as int;
                assert(mat_entries_nonneg(l@));
                l.lemma_row_wf(ii);
                lemma_vsum_wf(srow(l@, ii));
                lemma_msum_wf(l@);
                lemma_msum_nonneg(l@);
                assert(sa == (msum(l@).0 * 1, msum(l@).1 * (l.snrows() * l.sncols())));
                assert(msum(l@).0 * 1 == msum(l@).0) by (nonlinear_arith);
                assert(sa.0 > 0);
                assert(l.snrows() * l.snrows() == l.snrows() * l.sncols());
                assert(fits(pdiv(sravg(l@, ii), sa)));
                let x = ravg@[ii]@;
                let ra = sravg(l@, ii);
                assert(avg@.0 > 0);
                assert(pdiv(x, avg@) == (x.0 * avg@.1, x.1 * avg@.0));
                assert(pdiv(ra, sa) == (ra.0 * sa.1, ra.1 * sa.0));
                assert(0 <= x.0 * avg@.1 && x.0 * avg@.1 <= ra.0 * sa.1 && 0 < x.1 * avg@.0
                    && x.1 * avg@.0 <= ra.1 * sa.0) by (nonlinear_arith)
                    requires
                        0 <= x.0 <= ra.0,
                        0 < x.1 <= ra.1,
                        0 < avg@.1 <= sa.1,
                        0 < avg@.0 <= sa.0;
                assert(fits(pdiv(x, avg@)));
                assert(q0 is Some);
            }
        }
        let v = match q0 {
            None => { return Err(FioError::NumericalInstability); },
            Some(v) => v,
        };
        proof {
            l.lemma_row_wf(i as int);
            lemma_vsum_wf(srow(l@, i as int));
            lemma_pdiv_wf(vsum(srow(l@, i as int)), pfrom(l@.len() as int));
            assert(peq(avg@, sa));
            lemma_pdiv_wf(ravg@[i as int]@, avg@);
            lemma_pdiv_congr(ravg@[i as int]@, sravg(l@, i as int), avg@, sa);
            lemma_pdiv_wf(sravg(l@, i as int), sa);
            lemma_peq_trans(
                v@,
                pdiv(ravg@[i as int]@, avg@),
                pdiv(sravg(l@, i as int), sa),
            );
        }
        out.push(v);
        i = i + 1;
    }
    Ok(out)
}

/// Power of dispersion (backward linkage): each column average divided by
/// the average of the whole matrix.
pub fn compute_power_dispersion(l: &Matrix) -> (r: Result<Vec<Rat>, FioError>)
    requires
        l.wf(),
        l.snrows() == l.sncols(),
    ensures
        r matches Ok(out) ==> out@.len() == l.sncols() && rats_wf(out@) && forall|j: int|
            0 <= j < l.sncols() ==> peq(
                (#[trigger] out@[j])@,
                pdiv(scavg(l@, j), savg(l@, l.snrows() * l.sncols())),
            ),
        r is Err ==> r == Err::<Vec<Rat>, FioError>(FioError::Degenerate) || r == Err::<
            Vec<Rat>,
            FioError,
        >(FioError::NumericalInstability),
        (r == Err::<Vec<Rat>, FioError>(FioError::Degenerate)) ==> (l.snrows() == 0 || peq(
            savg(l@, l.snrows() * l.sncols()),
            pzero(),
        )),
        (dispersion_cols_computable(l@, l.snrows()) && peq(
            savg(l@, l.snrows() * l.sncols()),
            pzero(),
        )) ==> r == Err::<Vec<Rat>, FioError>(FioError::Degenerate),
        (dispersion_cols_computable(l@, l.snrows()) && !peq(
            savg(l@, l.snrows() * l.sncols()),
            pzero(),
        )) ==> r is Ok,
{
    proof {
        if dispersion_cols_computable(l@, l.snrows()) {
            assert(l.snrows() * l.snrows() == l.snrows() * l.sncols());
        }
    }
    let avg = match compute_leontief_inverse_average(l) {
        Err(e) => {
            proof {
                if dispersion_cols_computable(l@, l.snrows()) {
                    assert(fits(pdiv(msum(l@), pfrom(l.snrows() * l.sncols()))));
                    assert(false);
                }
            }
            return Err(e);
        },
        Ok(a) => a,
    };
    if avg.is_zero() {
        proof {
            lemma_msum_wf(l@);
            assert(l.snrows() * l.sncols() > 0) by (nonlinear_arith)
                requires l.snrows() >= 1, l.sncols() >= 1;
            lemma_pdiv_wf(msum(l@), pfrom(l.snrows() * l.sncols()));
            crate::rational::lemma_peq_nonzero(avg@, savg(l@, l.snrows() * l.sncols()));
            crate::rational::lemma_peq_zero(savg(l@, l.snrows() * l.sncols()));
        }
        return Err(FioError::Degenerate);
    }
    let cavg = match compute_col_average(l) {
        Err(e) => {
            proof {
                if dispersion_cols_computable(l@, l.snrows()) {
                    assert(false);
                }
                assert(e != FioError::Degenerate);
            }
            return Err(e);
        },
        Ok(v) => v,
    };
    let ghost sa = savg(l@, l.snrows() * l.sncols());
    proof {
        lemma_msum_wf(l@);
        assert(l.snrows() * l.sncols() > 0) by (nonlinear_arith)
            requires l.snrows() >= 1, l.sncols() >= 1;
        lemma_pdiv_wf(msum(l@), pfrom(l.snrows() * l.sncols()));
        assert(peq(sa, avg@));
        assert(sa.0 != 0) by (nonlinear_arith)
            requires peq(sa, avg@), avg@.0 != 0, pwf(avg@), pwf(sa);
        crate::rational::lemma_peq_zero(sa);
    }
    let n: usize = l.nrows();
    let mut out: Vec<Rat> = Vec::new();
    let mut j: usize = 0;
    while j < n
        invariant
            j <= n,
            l.wf(),
            l.snrows() == l.sncols(),
            n as int == l.snrows(),
            avg.wf(),
            avg@.0 != 0,
            peq(sa, avg@),
            sa == savg(l@, l.snrows() * l.sncols()),
            pwf(sa),
            sa.0 != 0,
            mat_entries_nonneg(l@) ==> (0 <= avg@.0 <= sa.0 && 0 < avg@.1 <= sa.1),
            cavg@.len() == n as int,
            rats_wf(cavg@),
            forall|q: int| 0 <= q < n as int ==> peq((#[trigger] cavg@[q])@, scavg(l@, q)),
            mat_entries_nonneg(l@) ==> forall|q: int|
                0 <= q < n as int ==> 0 <= (#[trigger] cavg@[q])@.0 <= scavg(l@, q).0 && 0
                    < cavg@[q]@.1 <= scavg(l@, q).1,
            out@.len() == j as int,
            rats_wf(out@),
            forall|q: int|
                0 <= q < j as int ==> peq((#[trigger] out@[q])@, pdiv(scavg(l@, q), sa)),
        decreases n - j,
    {
        let q0 = cavg[j].checked_div(&avg);
        proof {
            crate::rational::lemma_peq_zero(sa);
            if dispersion_cols_computable(l@, l.snrows()) && !peq(sa, pzero()) {
                let jj = j as int;
                assert(mat_entries_nonneg(l@));
                l.lemma_col_wf(jj);
                lemma_vsum_wf(scol(l@, jj));
                lemma_msum_wf(l@);
                lemma_msum_nonneg(l@);
                assert(sa == (msum(l@).0 * 1, msum(l@).1 * (l.snrows() * l.sncols())));
                assert(msum(l@).0 * 1 == msum(l@).0) by (nonlinear_arith);
                assert(sa.0 > 0);
                assert(l.snrows() * l.snrows() == l.snrows() * l.sncols());
                assert(fits(pdiv(scavg(l@, jj), sa)));
                let x = cavg@[jj]@;
                let ca = scavg(l@, jj);
                assert(avg@.0 > 0);
                assert(pdiv(x, avg@) == (x.0 * avg@.1, x.1 * avg@.0));
                assert(pdiv(ca, sa) == (ca.0 * sa.1, ca.1 * sa.0));
                assert(0 <= x.0 * avg@.1 && x.0 * avg@.1 <= ca.0 * sa.1 && 0 < x.1 * avg@.0
                    && x.1 * avg@.0 <= ca.1 * sa.0) by (nonlinear_arith)
                    requires
                        0 <= x.0 <= ca.0,
                        0 < x.1 <= ca.1,
                        0 < avg@.1 <= sa.1,
                        0 < avg@.0 <= sa.0;
                assert(fits(pdiv(x, avg@)));
                assert(q0 is Some);
            }
        }
        let v = match q0 {
            None => { return Err(FioError::NumericalInstability); },
            Some(v) => v,
        };
        proof {
            l.lemma_col_wf(j as int);
            lemma_vsum_wf(scol(l@, j as int));
            lemma_pdiv_wf(vsum(scol(l@, j as int)), pfrom(l@.len() as int));
            assert(peq(avg@, sa));
            lemma_pdiv_wf(cavg@[j as int]@, avg@);
            lemma_pdiv_congr(cavg@[j as int]@, scavg(l@, j as int), avg@, sa);
            lemma_pdiv_wf(scavg(l@, j as int), sa);
            lemma_peq_trans(
                v@,
                pdiv(cavg@[j as int]@, avg@),
                pdiv(scavg(l@, j as int), sa),
            );
        }
        out.push(v);
        j = j + 1;
    }
    Ok(out)
}


/// Squared power-of-dispersion coefficients of variation: for each column
/// `j`, the sum of squared deviations from the column average over `n - 1`,
/// divided by the squared column average. The exact square of the
/// coefficient of variation of column `j`.
pub fn compute_power_dispersion_cv_squared(l: &Matrix) -> (r: Result<Vec<Rat>, FioError>)
    requires
        l.wf(),
        l.snrows() == l.sncols(),
    ensures
        r matches Ok(out) ==> out@.len() == l.sncols() && rats_wf(out@) && forall|j: int|
            0 <= j < l.sncols() ==> peq((#[trigger] out@[j])@, scv2_col(l@, j)),
        r is Err ==> r == Err::<Vec<Rat>, FioError>(FioError::Degenerate) || r == Err::<
            Vec<Rat>,
            FioError,
        >(FioError::NumericalInstability),
        (r == Err::<Vec<Rat>, FioError>(FioError::Degenerate)) ==> (l.snrows() < 2 || exists|
            j: int,
        |
            0 <= j < l.sncols() && peq(#[trigger] scavg(l@, j), pzero())),
        l.snrows() < 2 ==> r == Err::<Vec<Rat>, FioError>(FioError::Degenerate),
        (2 <= l.snrows() <= 0x7fff_ffff_ffff_ffff && mat_entries_nonneg(l@) && (forall|j: int|
            0 <= j < l.sncols() ==> fits(
                #[trigger] pdiv(vsum(scol(l@, j)), pfrom(l@.len() as int)),
            )) && (exists|j: int|
            0 <= j < l.sncols() && peq(#[trigger] scavg(l@, j), pzero()))) ==> r == Err::<
            Vec<Rat>,
            FioError,
        >(FioError::Degenerate),
    {
    let n: usize = l.nrows();
    if n < 2 {
        return Err(FioError::Degenerate);
    }
    let cavg = match compute_col_average(l) {
        Err(_) => {
            proof {
                if 2 <= l.snrows() <= 0x7fff_ffff_ffff_ffff && mat_entries_nonneg(l@) && (forall|
                    j: int,
                |
                    0 <= j < l.sncols() ==> fits(
                        #[trigger] pdiv(vsum(scol(l@, j)), pfrom(l@.len() as int)),
                    )) {
                    assert(false);
                }
            }
            return Err(FioError::NumericalInstability);
        },
        Ok(v) => v,
    };
    let mut z: usize = 0;
    while z < n
        invariant
            z <= n,
            l.wf(),
            l.snrows() == l.sncols(),
            n as int == l.snrows(),
            n >= 2,
            cavg@.len() == n as int,
            rats_wf(cavg@),
            forall|q: int| 0 <= q < n as int ==> peq((#[trigger] cavg@[q])@, scavg(l@, q)),
            forall|q: int| 0 <= q < z as int ==> !peq(#[trigger] scavg(l@, q), pzero()),
        decreases n - z,
    {
        proof {
            l.lemma_col_wf(z as int);
            lemma_vsum_wf(scol(l@, z as int));
            lemma_pdiv_wf(vsum(scol(l@, z as int)), pfrom(l@.len() as int));
            crate::rational::lemma_peq_nonzero(cavg@[z as int]@, scavg(l@, z as int));
            crate::rational::lemma_peq_zero(scavg(l@, z as int));
        }
        if cavg[z].is_zero() {
            return Err(FioError::Degenerate);
        }
        z = z + 1;
    }
    let nm1 = match Rat::from_usize(n - 1) {
        None => { return Err(FioError::NumericalInstability); },
        Some(d) => d,
    };
    let mut out: Vec<Rat> = Vec::new();
    let mut j: usize = 0;
    while j < n
        invariant
            j <= n,
            l.wf(),
            l.snrows() == l.sncols(),
            n as int == l.snrows(),
            n >= 2,
            nm1.wf(),
            nm1@ == pfrom(n as int - 1),
            cavg@.len() == n as int,
            rats_wf(cavg@),
            forall|q: int| 0 <= q < n as int ==> peq((#[trigger] cavg@[q])@, scavg(l@, q)),
            forall|q: int| 0 <= q < n as int ==> !peq(#[trigger] scavg(l@, q), pzero()),
            out@.len() == j as int,
            rats_wf(out@),
            forall|q: int| 0 <= q < j as int ==> peq((#[trigger] out@[q])@, scv2_col(l@, q)),
        decreases n - j,
    {
        let ghost ca = scavg(l@, j as int);
        let ghost devs = scdev(l@, j as int);
        let ghost sqs = ssq(devs);
        proof {
            l.lemma_col_wf(j as int);
            lemma_vsum_wf(scol(l@, j as int));
            lemma_pdiv_wf(vsum(scol(l@, j as int)), pfrom(l@.len() as int));
            crate::rational::lemma_peq_zero(ca);
        }
        let aj = cavg[j];
        let mut devsq: Vec<Rat> = Vec::new();
        let mut i: usize = 0;
        while i < n
            invariant
                i <= n,
                j < n,
                n >= 2,
                l.wf(),
                l.snrows() == l.sncols(),
                n as int == l.snrows(),
                forall|q: int| 0 <= q < n as int ==> !peq(#[trigger] scavg(l@, q), pzero()),
                aj.wf(),
                peq(aj@, ca),
                ca == scavg(l@, j as int),
                pwf(ca),
                devs == scdev(l@, j as int),
                sqs == ssq(devs),
                devsq@.len() == i as int,
                rats_wf(devsq@),
                forall|q: int| 0 <= q < i as int ==> peq((#[trigger] devsq@[q])@, sqs[q]),
            decreases n - i,
        {
            let e = l.get(i, j);
            let d = match e.checked_sub(&aj) {
                None => { return Err(FioError::NumericalInstability); },
                Some(d) => d,
            };
            let sq = match d.checked_mul(&d) {
                None => { return Err(FioError::NumericalInstability); },
                Some(s) => s,
            };
            proof {
                let ii = i as int;
                assert(devs[ii] == psub(l@[ii][j as int], ca));
                lemma_pops_wf(e@, aj@);
                lemma_pops_wf(l@[ii][j as int], ca);
                lemma_padd_congr(e@, l@[ii][j as int], aj@, ca);
                lemma_peq_trans(d@, psub(e@, aj@), devs[ii]);
                lemma_pmul_congr(d@, devs[ii], d@, devs[ii]);
                lemma_pops_wf(d@, d@);
                lemma_peq_trans(sq@, pmul(d@, d@), sqs[ii]);
                assert(sqs[ii] == pmul(devs[ii], devs[ii]));
            }
            devsq.push(sq);
            i = i + 1;
        }
        let total = match vec_sum(&devsq) {
            None => { return Err(FioError::NumericalInstability); },
            Some(s) => s,
        };
        proof {
            assert(rats(devsq@).len() == sqs.len());
            assert forall|q: int| 0 <= q < sqs.len() implies pwf(#[trigger] sqs[q]) by {
                assert(sqs[q] == pmul(devs[q], devs[q]));
                assert(devs[q] == psub(l@[q][j as int], ca));
                lemma_pops_wf(l@[q][j as int], ca);
                lemma_pops_wf(devs[q], devs[q]);
            }
            assert forall|q: int| 0 <= q < rats(devsq@).len() implies pwf(
                #[trigger] rats(devsq@)[q],
            ) by {
                assert(rats(devsq@)[q] == devsq@[q]@);
            }
            assert forall|q: int| 0 <= q < sqs.len() implies peq(
                #[trigger] rats(devsq@)[q],
                sqs[q],
            ) by {
                assert(rats(devsq@)[q] == devsq@[q]@);
            }
            lemma_vsum_congr(rats(devsq@), sqs);
            lemma_vsum_wf(sqs);
            lemma_vsum_wf(rats(devsq@));
            lemma_peq_trans(total@, vsum(rats(devsq@)), vsum(sqs));
        }
        let q1 = match total.checked_div(&nm1) {
            None => { return Err(FioError::NumericalInstability); },
            Some(q) => q,
        };
        let a2 = match aj.checked_mul(&aj) {
            None => { return Err(FioError::NumericalInstability); },
            Some(a) => a,
        };
        proof {
            // q1 ~ vsum(sqs) / (n - 1)
            lemma_pdiv_wf(total@, nm1@);
            lemma_vsum_wf(sqs);
            lemma_pdiv_congr(total@, vsum(sqs), nm1@, pfrom(l@.len() as int - 1));
            lemma_pdiv_wf(vsum(sqs), pfrom(l@.len() as int - 1));
            lemma_peq_trans(
                q1@,
                pdiv(total@, nm1@),
                pdiv(vsum(sqs), pfrom(l@.len() as int - 1)),
            );
            // a2 ~ ca * ca, and its numerator is nonzero
            lemma_pmul_congr(aj@, ca, aj@, ca);
            lemma_pops_wf(aj@, aj@);
            lemma_pops_wf(ca, ca);
            lemma_peq_trans(a2@, pmul(aj@, aj@), pmul(ca, ca));
            assert(!peq(ca, pzero()));
            assert(ca.0 != 0);
            assert(pmul(ca, ca).0 != 0) by (nonlinear_arith)
                requires ca.0 != 0;
            crate::rational::lemma_peq_nonzero(a2@, pmul(ca, ca));
        }
        let v = match q1.checked_div(&a2) {
            None => { return Err(FioError::NumericalInstability); },
            Some(v) => v,
        };
        proof {
            lemma_pdiv_wf(q1@, a2@);
            lemma_pdiv_congr(
                q1@,
                pdiv(vsum(sqs), pfrom(l@.len() as int - 1)),
                a2@,
                pmul(ca, ca),
            );
            lemma_pdiv_wf(pdiv(vsum(sqs), pfrom(l@.len() as int - 1)), pmul(ca, ca));
            lemma_peq_trans(v@, pdiv(q1@, a2@), scv2_col(l@, j as int));
        }
        out.push(v);
        j = j + 1;
    }
    Ok(out)
}

/// Squared sensitivity-of-dispersion coefficients of variation: for each row
/// `i`, the sum of squared deviations from the row average over `n - 1`,
/// divided by the squared row average. The exact square of the coefficient
/// of variation of row `i`.
pub fn compute_sensitivity_dispersion_cv_squared(l: &Matrix) -> (r: Result<Vec<Rat>, FioError>)
    requires
        l.wf(),
        l.snrows() == l.sncols(),
    ensures
        r matches Ok(out) ==> out@.len() == l.snrows() && rats_wf(out@) && forall|i: int|
            0 <= i < l.snrows() ==> peq((#[trigger] out@[i])@, scv2_row(l@, i)),
        r is Err ==> r == Err::<Vec<Rat>, FioError>(FioError::Degenerate) || r == Err::<
            Vec<Rat>,
            FioError,
        >(FioError::NumericalInstability),
        (r == Err::<Vec<Rat>, FioError>(FioError::Degenerate)) ==> (l.snrows() < 2 || exists|
            i: int,
        |
            0 <= i < l.snrows() && peq(#[trigger] sravg(l@, i), pzero())),
        l.snrows() < 2 ==> r == Err::<Vec<Rat>, FioError>(FioError::Degenerate),
        (2 <= l.snrows() <= 0x7fff_ffff_ffff_ffff && mat_entries_nonneg(l@) && (forall|i: int|
            0 <= i < l.snrows() ==> fits(
                #[trigger] pdiv(vsum(srow(l@, i)), pfrom(l@.len() as int)),
            )) && (exists|i: int|
            0 <= i < l.snrows() && peq(#[trigger] sravg(l@, i), pzero()))) ==> r == Err::<
            Vec<Rat>,
            FioError,
        >(FioError::Degenerate),
    {
    let n: usize = l.nrows();
    if n < 2 {
        return Err(FioError::Degenerate);
    }
    let ravg = match compute_row_average(l) {
        Err(_) => {
            proof {
                if 2 <= l.snrows() <= 0x7fff_ffff_ffff_ffff && mat_entries_nonneg(l@) && (forall|
                    i: int,
                |
                    0 <= i < l.snrows() ==> fits(
                        #[trigger] pdiv(vsum(srow(l@, i)), pfrom(l@.len() as int)),
                    )) {
                    assert(false);
                }
            }
            return Err(FioError::NumericalInstability);
        },
        Ok(v) => v,
    };
    let mut z: usize = 0;
    while z < n
        invariant
            z <= n,
            l.wf(),
            l.snrows() == l.sncols(),
            n as int == l.snrows(),
            n >= 2,
            ravg@.len() == n as int,
            rats_wf(ravg@),
            forall|q: int| 0 <= q < n as int ==> peq((#[trigger] ravg@[q])@, sravg(l@, q)),
            forall|q: int| 0 <= q < z as int ==> !peq(#[trigger] sravg(l@, q), pzero()),
        decreases n - z,
    {
        proof {
            l.lemma_row_wf(z as int);
            lemma_vsum_wf(srow(l@, z as int));
            lemma_pdiv_wf(vsum(srow(l@, z as int)), pfrom(l@.len() as int));
            crate::rational::lemma_peq_nonzero(ravg@[z as int]@, sravg(l@, z as int));
            crate::rational::lemma_peq_zero(sravg(l@, z as int));
        }
        if ravg[z].is_zero() {
            return Err(FioError::Degenerate);
        }
        z = z + 1;
    }
    let nm1 = match Rat::from_usize(n - 1) {
        None => { return Err(FioError::NumericalInstability); },
        Some(d) => d,
    };
    let mut out: Vec<Rat> = Vec::new();
    let mut i: usize = 0;
    while i < n
        invariant
            i <= n,
            l.wf(),
            l.snrows() == l.sncols(),
            n as int == l.snrows(),
            n >= 2,
            nm1.wf(),
            nm1@ == pfrom(n as int - 1),
            ravg@.len() == n as int,
            rats_wf(ravg@),
            forall|q: int| 0 <= q < n as int ==> peq((#[trigger] ravg@[q])@, sravg(l@, q)),
            forall|q: int| 0 <= q < n as int ==> !peq(#[trigger] sravg(l@, q), pzero()),
            out@.len() == i as int,
            rats_wf(out@),
            forall|q: int| 0 <= q < i as int ==> peq((#[trigger] out@[q])@, scv2_row(l@, q)),
        decreases n - i,
    {
        let ghost ra = sravg(l@, i as int);
        let ghost devs = srdev(l@, i as int);
        let ghost sqs = ssq(devs);
        proof {
            l.lemma_row_wf(i as int);
            lemma_vsum_wf(srow(l@, i as int));
            lemma_pdiv_wf(vsum(srow(l@, i as int)), pfrom(l@.len() as int));
            crate::rational::lemma_peq_zero(ra);
        }
        let ai = ravg[i];
        let mut devsq: Vec<Rat> = Vec::new();
        let mut j: usize = 0;
        while j < n
            invariant
                j <= n,
                i < n,
                n >= 2,
                l.wf(),
                l.snrows() == l.sncols(),
                n as int == l.snrows(),
                forall|q: int| 0 <= q < n as int ==> !peq(#[trigger] sravg(l@, q), pzero()),
                ai.wf(),
                peq(ai@, ra),
                ra == sravg(l@, i as int),
                pwf(ra),
                devs == srdev(l@, i as int),
                sqs == ssq(devs),
                devsq@.len() == j as int,
                rats_wf(devsq@),
                forall|q: int| 0 <= q < j as int ==> peq((#[trigger] devsq@[q])@, sqs[q]),
            decreases n - j,
        {
            let e = l.get(i, j);
            let d = match e.checked_sub(&ai) {
                None => { return Err(FioError::NumericalInstability); },
                Some(d) => d,
            };
            let sq = match d.checked_mul(&d) {
                None => { return Err(FioError::NumericalInstability); },
                Some(s) => s,
            };
            proof {
                let jj = j as int;
                assert(devs[jj] == psub(l@[i as int][jj], ra));
                lemma_pops_wf(e@, ai@);
                lemma_pops_wf(l@[i as int][jj], ra);
                lemma_padd_congr(e@, l@[i as int][jj], ai@, ra);
                lemma_peq_trans(d@, psub(e@, ai@), devs[jj]);
                lemma_pmul_congr(d@, devs[jj], d@, devs[jj]);
                lemma_pops_wf(d@, d@);
                lemma_peq_trans(sq@, pmul(d@, d@), sqs[jj]);
                assert(sqs[jj] == pmul(devs[jj], devs[jj]));
            }
            devsq.push(sq);
            j = j + 1;
        }
        let total = match vec_sum(&devsq) {
            None => { return Err(FioError::NumericalInstability); },
            Some(s) => s,
        };
        proof {
            assert(rats(devsq@).len() == sqs.len());
            assert forall|q: int| 0 <= q < sqs.len() implies pwf(#[trigger] sqs[q]) by {
                assert(sqs[q] == pmul(devs[q], devs[q]));
                assert(devs[q] == psub(l@[i as int][q], ra));
                lemma_pops_wf(l@[i as int][q], ra);
                lemma_pops_wf(devs[q], devs[q]);
            }
            assert forall|q: int| 0 <= q < rats(devsq@).len() implies pwf(
                #[trigger] rats(devsq@)[q],
            ) by {
                assert(rats(devsq@)[q] == devsq@[q]@);
            }
            assert forall|q: int| 0 <= q < sqs.len() implies peq(
                #[trigger] rats(devsq@)[q],
                sqs[q],
            ) by {
                assert(rats(devsq@)[q] == devsq@[q]@);
            }
            lemma_vsum_congr(rats(devsq@), sqs);
            lemma_vsum_wf(sqs);
            lemma_vsum_wf(rats(devsq@));
            lemma_peq_trans(total@, vsum(rats(devsq@)), vsum(sqs));
        }
        let q1 = match total.checked_div(&nm1) {
            None => { return Err(FioError::NumericalInstability); },
            Some(q) => q,
        };
        let a2 = match ai.checked_mul(&ai) {
            None => { return Err(FioError::NumericalInstability); },
            Some(a) => a,
        };
        proof {
            lemma_pdiv_wf(total@, nm1@);
            lemma_vsum_wf(sqs);
            lemma_pdiv_congr(total@, vsum(sqs), nm1@, pfrom(l@.len() as int - 1));
            lemma_pdiv_wf(vsum(sqs), pfrom(l@.len() as int - 1));
            lemma_peq_trans(
                q1@,
                pdiv(total@, nm1@),
                pdiv(vsum(sqs), pfrom(l@.len() as int - 1)),
            );
            lemma_pmul_congr(ai@, ra, ai@, ra);
            lemma_pops_wf(ai@, ai@);
            lemma_pops_wf(ra, ra);
            lemma_peq_trans(a2@, pmul(ai@, ai@), pmul(ra, ra));
            assert(!peq(ra, pzero()));
            assert(ra.0 != 0);
            assert(pmul(ra, ra).0 != 0) by (nonlinear_arith)
                requires ra.0 != 0;
            crate::rational::lemma_peq_nonzero(a2@, pmul(ra, ra));
        }
        let v = match q1.checked_div(&a2) {
            None => { return Err(FioError::NumericalInstability); },
            Some(v) => v,
        };
        proof {
            lemma_pdiv_wf(q1@, a2@);
            lemma_pdiv_congr(
                q1@,
                pdiv(vsum(sqs), pfrom(l@.len() as int - 1)),
                a2@,
                pmul(ra, ra),
            );
            lemma_pdiv_wf(pdiv(vsum(sqs), pfrom(l@.len() as int - 1)), pmul(ra, ra));
            lemma_peq_trans(v@, pdiv(q1@, a2@), scv2_row(l@, i as int));
        }
        out.push(v);
        i = i + 1;
    }
    Ok(out)
}

} // verus!
