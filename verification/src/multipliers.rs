//! Output and satellite-account multipliers.
//!
//! The satellite operations (requirements, generator, multiplier, indirect
//! multiplier) are one parameterized algorithm: any length-`n` account vector
//! (value added, employment, or another) paired with total production drives
//! the same four steps.

use vstd::prelude::*;
use crate::error::FioError;
use crate::matrix::Matrix;
use crate::matrix::rats;
use crate::matrix::rats_wf;
use crate::matrix::mat_entries_nonneg;
use crate::matrix::entries_nonneg;
use crate::matrix::lemma_vsum_nonneg;
use crate::matrix::scol;
use crate::matrix::vsum;
use crate::matrix::dot;
use crate::matrix::entries_wf;
use crate::matrix::lemma_vsum_wf;
use crate::matrix::lemma_dot_wf;
use crate::matrix::lemma_dot_congr;
use crate::rational::Rat;
use crate::rational::peq;
use crate::rational::pwf;
use crate::rational::pdiv;
use crate::rational::fits;
use crate::rational::pmul;
use crate::rational::psub;
use crate::rational::padd;
use crate::rational::pnonneg;
use crate::rational::lemma_peq_trans;
use crate::rational::lemma_padd_congr;
use crate::rational::lemma_pdiv_wf;
use crate::rational::lemma_pops_wf;

verus! {

/// The requirements vector of an account `va` against production `p`:
/// `va[i] / p[i]`.
pub open spec fn sreq(va: Seq<Rat>, p: Seq<Rat>) -> Seq<(int, int)> {
    Seq::new(va.len(), |i: int| pdiv(va[i]@, p[i]@))
}

/// Total output multipliers: the column sums of the Leontief inverse. For a
/// nonnegative matrix whose column sums fit the scalar range, the result is
/// owed.
pub fn compute_multiplier_output(l: &Matrix) -> (r: Result<Vec<Rat>, FioError>)
    requires
        l.wf(),
    ensures
        r matches Ok(out) ==> out@.len() == l.sncols() && rats_wf(out@) && forall|j: int|
            0 <= j < l.sncols() ==> peq((#[trigger] out@[j])@, vsum(scol(l@, j))),
        r is Err ==> r == Err::<Vec<Rat>, FioError>(FioError::NumericalInstability),
        (mat_entries_nonneg(l@) && (forall|j: int|
            0 <= j < l.sncols() ==> fits(#[trigger] vsum(scol(l@, j))))) ==> r is Ok,
        r matches Ok(out) ==> (mat_entries_nonneg(l@) ==> forall|j: int|
            0 <= j < l.sncols() ==> 0 <= (#[trigger] out@[j])@.0 <= vsum(scol(l@, j)).0 && 0
                < out@[j]@.1 <= vsum(scol(l@, j)).1),
{
    let nc: usize = l.ncols();
    let mut out: Vec<Rat> = Vec::new();
    let mut j: usize = 0;
    while j < nc
        invariant
            j <= nc,
            l.wf(),
            nc as int == l.sncols(),
            out@.len() == j as int,
            rats_wf(out@),
            forall|q: int| 0 <= q < j as int ==> peq((#[trigger] out@[q])@, vsum(scol(l@, q))),
            mat_entries_nonneg(l@) ==> forall|q: int|
                0 <= q < j as int ==> 0 <= (#[trigger] out@[q])@.0 <= vsum(scol(l@, q)).0 && 0
                    < out@[q]@.1 <= vsum(scol(l@, q)).1,
        decreases nc - j,
    {
        proof {
            if mat_entries_nonneg(l@) {
                assert forall|q: int| 0 <= q < scol(l@, j as int).len() implies pnonneg(
                    #[trigger] scol(l@, j as int)[q],
                ) by {
                    assert(scol(l@, j as int)[q] == l@[q][j as int]);
                }
                assert(entries_nonneg(scol(l@, j as int)));
            }
        }
        let s = match l.col_sum(j) {
            None => { return Err(FioError::NumericalInstability); },
            Some(s) => s,
        };
        out.push(s);
        j = j + 1;
    }
    Ok(out)
}

/// Direct output multipliers: the column sums of the technical coefficients.
pub fn compute_multiplier_output_direct(a: &Matrix) -> (r: Result<Vec<Rat>, FioError>)
    requires
        a.wf(),
    ensures
        r matches Ok(out) ==> out@.len() == a.sncols() && rats_wf(out@) && forall|j: int|
            0 <= j < a.sncols() ==> peq((#[trigger] out@[j])@, vsum(scol(a@, j))),
        r is Err ==> r == Err::<Vec<Rat>, FioError>(FioError::NumericalInstability),
        (mat_entries_nonneg(a@) && (forall|j: int|
            0 <= j < a.sncols() ==> fits(#[trigger] vsum(scol(a@, j))))) ==> r is Ok,
        r matches Ok(out) ==> (mat_entries_nonneg(a@) ==> forall|j: int|
            0 <= j < a.sncols() ==> 0 <= (#[trigger] out@[j])@.0 <= vsum(scol(a@, j)).0 && 0
                < out@[j]@.1 <= vsum(scol(a@, j)).1),
{
    compute_multiplier_output(a)
}

/// For nonnegative matrices whose paired column sums fit when added, each
/// column sum fits on its own.
proof fn lemma_fits_of_sum_pair(l: &Matrix, a: &Matrix, j: int)
    requires
        l.wf(),
        a.wf(),
        0 <= j < l.sncols(),
        a.sncols() == l.sncols(),
        mat_entries_nonneg(l@),
        mat_entries_nonneg(a@),
        fits(padd(vsum(scol(l@, j)), vsum(scol(a@, j)))),
    ensures
        fits(vsum(scol(l@, j))),
        fits(vsum(scol(a@, j))),
{
    l.lemma_col_wf(j);
    a.lemma_col_wf(j);
    assert forall|q: int| 0 <= q < scol(l@, j).len() implies pnonneg(
        #[trigger] scol(l@, j)[q],
    ) by {
        assert(scol(l@, j)[q] == l@[q][j]);
    }
    assert forall|q: int| 0 <= q < scol(a@, j).len() implies pnonneg(
        #[trigger] scol(a@, j)[q],
    ) by {
        assert(scol(a@, j)[q] == a@[q][j]);
    }
    lemma_vsum_wf(scol(l@, j));
    lemma_vsum_wf(scol(a@, j));
    lemma_vsum_nonneg(scol(l@, j));
    lemma_vsum_nonneg(scol(a@, j));
    let vl = vsum(scol(l@, j));
    let va = vsum(scol(a@, j));
    assert(vl.0 <= vl.0 * va.1 + va.0 * vl.1 && vl.1 <= vl.1 * va.1 && va.0 <= vl.0 * va.1 + va.0
        * vl.1 && va.1 <= vl.1 * va.1) by (nonlinear_arith)
        requires
            vl.0 >= 0,
            va.0 >= 0,
            vl.1 >= 1,
            va.1 >= 1;
}

/// Indirect output multipliers: for each sector, the total minus the direct
/// multiplier, exactly. For nonnegative inputs whose paired column sums fit
/// when added, the result is owed.
pub fn compute_multiplier_output_indirect(a: &Matrix, l: &Matrix) -> (r: Result<
    Vec<Rat>,
    FioError,
>)
    requires
        a.wf(),
        l.wf(),
    ensures
        r matches Ok(out) ==> out@.len() == l.sncols() && rats_wf(out@) && forall|j: int|
            0 <= j < l.sncols() ==> peq(
                (#[trigger] out@[j])@,
                psub(vsum(scol(l@, j)), vsum(scol(a@, j))),
            ),
        (r == Err::<Vec<Rat>, FioError>(FioError::DimensionMismatch)) <==> a.sncols()
            != l.sncols(),
        r is Err ==> r == Err::<Vec<Rat>, FioError>(FioError::DimensionMismatch) || r == Err::<
            Vec<Rat>,
            FioError,
        >(FioError::NumericalInstability),
        (a.sncols() == l.sncols() && mat_entries_nonneg(l@) && mat_entries_nonneg(a@) && (forall|
            j: int,
        |
            0 <= j < l.sncols() ==> fits(
                #[trigger] padd(vsum(scol(l@, j)), vsum(scol(a@, j))),
            ))) ==> r is Ok,
{
    let nc: usize = l.ncols();
    if a.ncols() != nc {
        return Err(FioError::DimensionMismatch);
    }
    proof {
        if mat_entries_nonneg(l@) && mat_entries_nonneg(a@) && (forall|j: int|
            0 <= j < l.sncols() ==> fits(#[trigger] padd(vsum(scol(l@, j)), vsum(scol(a@, j))))) {
            assert forall|j: int| 0 <= j < l.sncols() implies fits(#[trigger] vsum(scol(l@, j))) by {
                lemma_fits_of_sum_pair(l, a, j);
            }
            assert forall|j: int| 0 <= j < l.sncols() implies fits(#[trigger] vsum(scol(a@, j))) by {
                lemma_fits_of_sum_pair(l, a, j);
            }
        }
    }
    let total = match compute_multiplier_output(l) {
        Err(_) => { return Err(FioError::NumericalInstability); },
        Ok(v) => v,
    };
    let direct = match compute_multiplier_output_direct(a) {
        Err(_) => { return Err(FioError::NumericalInstability); },
        Ok(v) => v,
    };
    let mut out: Vec<Rat> = Vec::new();
    let mut j: usize = 0;
    while j < nc
        invariant
            j <= nc,
            a.wf(),
            l.wf(),
            nc as int == l.sncols(),
            a.sncols() == l.sncols(),
            total@.len() == nc as int,
            rats_wf(total@),
            forall|q: int| 0 <= q < nc as int ==> peq((#[trigger] total@[q])@, vsum(scol(l@, q))),
            direct@.len() == nc as int,
            rats_wf(direct@),
            forall|q: int| 0 <= q < nc as int ==> peq((#[trigger] direct@[q])@, vsum(scol(a@, q))),
            mat_entries_nonneg(l@) ==> forall|q: int|
                0 <= q < nc as int ==> 0 <= (#[trigger] total@[q])@.0 <= vsum(scol(l@, q)).0 && 0
                    < total@[q]@.1 <= vsum(scol(l@, q)).1,
            mat_entries_nonneg(a@) ==> forall|q: int|
                0 <= q < nc as int ==> 0 <= (#[trigger] direct@[q])@.0 <= vsum(scol(a@, q)).0 && 0
                    < direct@[q]@.1 <= vsum(scol(a@, q)).1,
            out@.len() == j as int,
            rats_wf(out@),
            forall|q: int|
                0 <= q < j as int ==> peq(
                    (#[trigger] out@[q])@,
                    psub(vsum(scol(l@, q)), vsum(scol(a@, q))),
                ),
        decreases nc - j,
    {
        proof {
            if mat_entries_nonneg(l@) && mat_entries_nonneg(a@) && (forall|q: int|
                0 <= q < l.sncols() ==> fits(
                    #[trigger] padd(vsum(scol(l@, q)), vsum(scol(a@, q))),
                )) {
                let jj = j as int;
                let vl = vsum(scol(l@, jj));
                let va = vsum(scol(a@, jj));
                let t = total@[jj]@;
                let d = direct@[jj]@;
                assert(fits(padd(vl, va)));
                assert(-(vl.0 * va.1 + va.0 * vl.1) <= t.0 * d.1 - d.0 * t.1 <= vl.0 * va.1
                    + va.0 * vl.1 && 0 < t.1 * d.1 <= vl.1 * va.1) by (nonlinear_arith)
                    requires
                        0 <= t.0 <= vl.0,
                        0 < t.1 <= vl.1,
                        0 <= d.0 <= va.0,
                        0 < d.1 <= va.1,
                        va.1 >= 1,
                        vl.1 >= 1;
                assert(fits(psub(t, d)));
            }
        }
        let v = match total[j].checked_sub(&direct[j]) {
            None => { return Err(FioError::NumericalInstability); },
            Some(v) => v,
        };
        proof {
            let jj = j as int;
            l.lemma_col_wf(jj);
            a.lemma_col_wf(jj);
            lemma_vsum_wf(scol(l@, jj));
            lemma_vsum_wf(scol(a@, jj));
            lemma_padd_congr(total@[jj]@, vsum(scol(l@, jj)), direct@[jj]@, vsum(scol(a@, jj)));
            lemma_pops_wf(total@[jj]@, direct@[jj]@);
            lemma_peq_trans(
                v@,
                psub(total@[jj]@, direct@[jj]@),
                psub(vsum(scol(l@, jj)), vsum(scol(a@, jj))),
            );
        }
        out.push(v);
        j = j + 1;
    }
    Ok(out)
}

/// Law: whatever vectors the three output-multiplier operations return, the
/// indirect multiplier of a sector equals its total multiplier minus its
/// direct multiplier, as exact rationals. The hypotheses are precisely the
/// contracts of `compute_multiplier_output`, `compute_multiplier_output_direct`
/// and `compute_multiplier_output_indirect` at one sector.
pub proof fn lemma_output_multiplier_decomposition(
    lcol: (int, int),
    acol: (int, int),
    total: (int, int),
    direct: (int, int),
    indirect: (int, int),
)
    requires
        pwf(lcol),
        pwf(acol),
        pwf(total),
        pwf(direct),
        pwf(indirect),
        peq(total, lcol),
        peq(direct, acol),
        peq(indirect, psub(lcol, acol)),
    ensures
        peq(indirect, psub(total, direct)),
{
    lemma_padd_congr(lcol, total, acol, direct);
    lemma_pops_wf(lcol, acol);
    lemma_peq_trans(indirect, psub(lcol, acol), psub(total, direct));
}

/// Requirements of a satellite account: each component divided by the
/// matching total production, `va[i] / p[i]`.
///
/// Fails with `DimensionMismatch` when the vectors disagree in length and
/// with `Degenerate`, before any division, when some `p[k]` is zero.
pub fn compute_requirements_value_added(va: &Vec<Rat>, p: &Vec<Rat>) -> (r: Result<
    Vec<Rat>,
    FioError,
>)
    requires
        rats_wf(va@),
        rats_wf(p@),
    ensures
        r matches Ok(out) ==> out@.len() == va@.len() && rats_wf(out@) && forall|i: int|
            0 <= i < va@.len() ==> peq((#[trigger] out@[i])@, sreq(va@, p@)[i]),
        (r == Err::<Vec<Rat>, FioError>(FioError::DimensionMismatch)) <==> va@.len() != p@.len(),
        (r == Err::<Vec<Rat>, FioError>(FioError::Degenerate)) <==> (va@.len() == p@.len()
            && exists|k: int| 0 <= k < p@.len() && (#[trigger] p@[k])@.0 == 0),
        r is Err ==> r == Err::<Vec<Rat>, FioError>(FioError::DimensionMismatch) || r == Err::<
            Vec<Rat>,
            FioError,
        >(FioError::Degenerate) || r == Err::<Vec<Rat>, FioError>(FioError::NumericalInstability),
        (va@.len() == p@.len() && (forall|k: int|
            0 <= k < p@.len() ==> (#[trigger] p@[k])@.0 != 0) && (forall|k: int|
            0 <= k < va@.len() ==> fits(#[trigger] pdiv(va@[k]@, p@[k]@)))) ==> r is Ok,
{
    let n: usize = va.len();
    if p.len() != n {
        return Err(FioError::DimensionMismatch);
    }
    let mut k: usize = 0;
    while k < n
        invariant
            k <= n,
            rats_wf(p@),
            p@.len() == n as int,
            va@.len() == n as int,
            forall|q: int| 0 <= q < k as int ==> (#[trigger] p@[q])@.0 != 0,
        decreases n - k,
    {
        if p[k].is_zero() {
            proof {
                assert((p@[k as int])@.0 == 0);
            }
            return Err(FioError::Degenerate);
        }
        k = k + 1;
    }
    let mut out: Vec<Rat> = Vec::new();
    let mut i: usize = 0;
    while i < n
        invariant
            i <= n,
            rats_wf(va@),
            rats_wf(p@),
            p@.len() == n as int,
            va@.len() == n as int,
            forall|q: int| 0 <= q < n as int ==> (#[trigger] p@[q])@.0 != 0,
            out@.len() == i as int,
            rats_wf(out@),
            forall|q: int| 0 <= q < i as int ==> peq((#[trigger] out@[q])@, sreq(va@, p@)[q]),
        decreases n - i,
    {
        let q = va[i].checked_div(&p[i]);
        proof {
            if forall|k: int| 0 <= k < va@.len() ==> fits(#[trigger] pdiv(va@[k]@, p@[k]@)) {
                assert(fits(pdiv(va@[i as int]@, p@[i as int]@)));
            }
        }
        let v = match q {
            None => { return Err(FioError::NumericalInstability); },
            Some(v) => v,
        };
        proof {
            assert(sreq(va@, p@)[i as int] == pdiv(va@[i as int]@, p@[i as int]@));
        }
        out.push(v);
        i = i + 1;
    }
    Ok(out)
}

/// Generator matrix of a satellite account: the diagonal of the requirements
/// vector times the Leontief inverse, `G[i][j] = reqs[i] * L[i][j]`.
pub fn compute_generator_value_added(reqs: &Vec<Rat>, l: &Matrix) -> (r: Result<Matrix, FioError>)
    requires
        rats_wf(reqs@),
        l.wf(),
    ensures
        r matches Ok(g) ==> g.wf() && g.snrows() == l.snrows() && g.sncols() == l.sncols()
            && forall|i: int, j: int|
            0 <= i < l.snrows() && 0 <= j < l.sncols() ==> peq(
                #[trigger] g@[i][j],
                pmul(rats(reqs@)[i], l@[i][j]),
            ),
        (r == Err::<Matrix, FioError>(FioError::DimensionMismatch)) <==> reqs@.len()
            != l.snrows(),
        r is Err ==> r == Err::<Matrix, FioError>(FioError::DimensionMismatch) || r == Err::<
            Matrix,
            FioError,
        >(FioError::NumericalInstability),
        (reqs@.len() == l.snrows() && (forall|i: int, j: int|
            0 <= i < l.snrows() && 0 <= j < l.sncols() ==> fits(
                #[trigger] pmul(rats(reqs@)[i], l@[i][j]),
            ))) ==> r is Ok,
{
    let nr: usize = l.nrows();
    let nc: usize = l.ncols();
    if reqs.len() != nr {
        return Err(FioError::DimensionMismatch);
    }
    proof {
        l.lemma_size_bound();
    }
    let mut g = Matrix::zeros(nr, nc);
    let mut i: usize = 0;
    while i < nr
        invariant
            i <= nr,
            l.wf(),
            g.wf(),
            nr as int == l.snrows(),
            nc as int == l.sncols(),
            reqs@.len() == nr as int,
            rats_wf(reqs@),
            g.snrows() == nr as int,
            g.sncols() == nc as int,
            forall|a: int, b: int|
                0 <= a < i as int && 0 <= b < nc as int ==> peq(
                    #[trigger] g@[a][b],
                    pmul(rats(reqs@)[a], l@[a][b]),
                ),
        decreases nr - i,
    {
        let mut j: usize = 0;
        while j < nc
            invariant
                i < nr,
                j <= nc,
                l.wf(),
                g.wf(),
                nr as int == l.snrows(),
                nc as int == l.sncols(),
                reqs@.len() == nr as int,
                rats_wf(reqs@),
                g.snrows() == nr as int,
                g.sncols() == nc as int,
                forall|a: int, b: int|
                    0 <= a < i as int && 0 <= b < nc as int ==> peq(
                        #[trigger] g@[a][b],
                        pmul(rats(reqs@)[a], l@[a][b]),
                    ),
                forall|b: int|
                    0 <= b < j as int ==> peq(
                        #[trigger] g@[i as int][b],
                        pmul(rats(reqs@)[i as int], l@[i as int][b]),
                    ),
            decreases nc - j,
        {
            let q = reqs[i].checked_mul(&l.get(i, j));
            proof {
                assert(rats(reqs@)[i as int] == reqs@[i as int]@);
                if forall|a: int, b: int|
                    0 <= a < l.snrows() && 0 <= b < l.sncols() ==> fits(
                        #[trigger] pmul(rats(reqs@)[a], l@[a][b]),
                    ) {
                    assert(fits(pmul(rats(reqs@)[i as int], l@[i as int][j as int])));
                }
            }
            let v = match q {
                None => { return Err(FioError::NumericalInstability); },
                Some(v) => v,
            };
            g.set(i, j, v);
            j = j + 1;
        }
        i = i + 1;
    }
    Ok(g)
}

/// Total multiplier of a satellite account: the column sums of its generator
/// matrix, which are exactly `sum_i reqs[i] * L[i][j]`.
pub fn compute_multiplier_value_added(reqs: &Vec<Rat>, l: &Matrix) -> (r: Result<
    Vec<Rat>,
    FioError,
>)
    requires
        rats_wf(reqs@),
        l.wf(),
    ensures
        r matches Ok(out) ==> out@.len() == l.sncols() && rats_wf(out@) && forall|j: int|
            0 <= j < l.sncols() ==> peq((#[trigger] out@[j])@, dot(rats(reqs@), scol(l@, j))),
        (r == Err::<Vec<Rat>, FioError>(FioError::DimensionMismatch)) <==> reqs@.len()
            != l.snrows(),
        r is Err ==> r == Err::<Vec<Rat>, FioError>(FioError::DimensionMismatch) || r == Err::<
            Vec<Rat>,
            FioError,
        >(FioError::NumericalInstability),
        (reqs@.len() == l.snrows() && mat_entries_nonneg(l@) && entries_nonneg(rats(reqs@)) && (
        forall|j: int|
            0 <= j < l.sncols() ==> fits(#[trigger] dot(rats(reqs@), scol(l@, j))))) ==> r is Ok,
{
    let nr: usize = l.nrows();
    if reqs.len() != nr {
        return Err(FioError::DimensionMismatch);
    }
    let out0 = l.vec_mat_mul(reqs);
    proof {
        if mat_entries_nonneg(l@) && entries_nonneg(rats(reqs@)) && (forall|j: int|
            0 <= j < l.sncols() ==> fits(#[trigger] dot(rats(reqs@), scol(l@, j)))) {
            assert(out0 is Some);
        }
    }
    match out0 {
        None => Err(FioError::NumericalInstability),
        Some(out) => Ok(out),
    }
}

/// Indirect multiplier of a satellite account: the total multiplier minus
/// the direct requirement, sector by sector, exactly.
pub fn compute_multiplier_value_added_indirect(va: &Vec<Rat>, p: &Vec<Rat>, l: &Matrix) -> (r:
    Result<Vec<Rat>, FioError>)
    requires
        rats_wf(va@),
        rats_wf(p@),
        l.wf(),
        l.snrows() == l.sncols(),
    ensures
        r matches Ok(out) ==> out@.len() == l.sncols() && rats_wf(out@) && forall|j: int|
            0 <= j < l.sncols() ==> peq(
                (#[trigger] out@[j])@,
                psub(dot(sreq(va@, p@), scol(l@, j)), sreq(va@, p@)[j]),
            ),
        (r == Err::<Vec<Rat>, FioError>(FioError::DimensionMismatch)) <==> !(va@.len()
            == l.snrows() && p@.len() == l.snrows()),
        (va@.len() == l.snrows() && p@.len() == l.snrows()) ==> ((r == Err::<Vec<Rat>, FioError>(
            FioError::Degenerate,
        )) <==> (exists|k: int| 0 <= k < p@.len() && (#[trigger] p@[k])@.0 == 0)),
        r is Err ==> r == Err::<Vec<Rat>, FioError>(FioError::DimensionMismatch) || r == Err::<
            Vec<Rat>,
            FioError,
        >(FioError::Degenerate) || r == Err::<Vec<Rat>, FioError>(FioError::NumericalInstability),
{
    let n: usize = l.nrows();
    if va.len() != n || p.len() != n {
        return Err(FioError::DimensionMismatch);
    }
    let reqs = match compute_requirements_value_added(va, p) {
        Err(e) => {
            proof {
                assert(e != FioError::DimensionMismatch);
            }
            return Err(e);
        },
        Ok(v) => v,
    };
    let total = match compute_multiplier_value_added(&reqs, l) {
        Err(FioError::DimensionMismatch) => { return Err(FioError::NumericalInstability); },
        Err(e) => { return Err(e); },
        Ok(v) => v,
    };
    let ghost sr = sreq(va@, p@);
    proof {
        assert forall|q: int| 0 <= q < sr.len() implies pwf(#[trigger] sr[q]) by {
            assert(sr[q] == pdiv(va@[q]@, p@[q]@));
            assert((p@[q])@.0 != 0);
            lemma_pdiv_wf(va@[q]@, p@[q]@);
        }
    }
    let mut out: Vec<Rat> = Vec::new();
    let mut j: usize = 0;
    while j < n
        invariant
            j <= n,
            l.wf(),
            l.snrows() == l.sncols(),
            n as int == l.snrows(),
            va@.len() == n as int,
            p@.len() == n as int,
            rats_wf(va@),
            rats_wf(p@),
            sr == sreq(va@, p@),
            entries_wf(sr),
            sr.len() == n as int,
            !(exists|k: int| 0 <= k < p@.len() && (#[trigger] p@[k])@.0 == 0),
            reqs@.len() == n as int,
            rats_wf(reqs@),
            forall|q: int| 0 <= q < n as int ==> peq((#[trigger] reqs@[q])@, sr[q]),
            total@.len() == n as int,
            rats_wf(total@),
            forall|q: int|
                0 <= q < n as int ==> peq((#[trigger] total@[q])@, dot(rats(reqs@), scol(l@, q))),
            out@.len() == j as int,
            rats_wf(out@),
            forall|q: int|
                0 <= q < j as int ==> peq(
                    (#[trigger] out@[q])@,
                    psub(dot(sr, scol(l@, q)), sr[q]),
                ),
        decreases n - j,
    {
        let v = match total[j].checked_sub(&reqs[j]) {
            None => { return Err(FioError::NumericalInstability); },
            Some(v) => v,
        };
        proof {
            let jj = j as int;
            l.lemma_col_wf(jj);
            assert forall|q: int| 0 <= q < rats(reqs@).len() implies pwf(
                #[trigger] rats(reqs@)[q],
            ) by {
                assert(rats(reqs@)[q] == reqs@[q]@);
            }
            assert forall|q: int| 0 <= q < rats(reqs@).len() implies peq(
                #[trigger] rats(reqs@)[q],
                sr[q],
            ) by {
                assert(rats(reqs@)[q] == reqs@[q]@);
            }
            lemma_dot_congr(rats(reqs@), sr, scol(l@, jj), scol(l@, jj));
            lemma_dot_wf(rats(reqs@), scol(l@, jj));
            lemma_peq_trans(total@[jj]@, dot(rats(reqs@), scol(l@, jj)), dot(sr, scol(l@, jj)));
            lemma_dot_wf(sr, scol(l@, jj));
            lemma_padd_congr(total@[jj]@, dot(sr, scol(l@, jj)), reqs@[jj]@, sr[jj]);
            lemma_pops_wf(total@[jj]@, reqs@[jj]@);
            lemma_peq_trans(
                v@,
                psub(total@[jj]@, reqs@[jj]@),
                psub(dot(sr, scol(l@, jj)), sr[jj]),
            );
        }
        out.push(v);
        j = j + 1;
    }
    Ok(out)
}

} // verus!
