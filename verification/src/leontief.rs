//! Technical coefficients and the Leontief inverse (demand side).

use vstd::prelude::*;
use crate::error::FioError;
use crate::matrix::Matrix;
use crate::matrix::rats_wf;
use crate::matrix::is_inverse;
use crate::matrix::mat_peq;
use crate::matrix::mat_entries_wf;
use crate::matrix::entries_wf;
use crate::matrix::sident_minus;
use crate::parallel::par_div_by;
use crate::rational::Rat;
use crate::parallel::div_outcome;
use crate::rational::peq;
use crate::rational::pwf;
use crate::rational::pdiv;
use crate::rational::fits;
use crate::rational::pone;
use crate::rational::pzero;
use crate::rational::psub;
use crate::rational::lemma_pops_wf;
use crate::solve::mat_inverse;

verus! {

/// Derive the technical coefficients matrix `A`: the columnwise ratio of the
/// transactions matrix to total production, `A[i][j] = T[i][j] / p[j]`.
///
/// Fails with `DimensionMismatch` when `T` is not square or `p` does not
/// match its side; with `Degenerate`, before any division, when some `p[k]`
/// is zero; with `NumericalInstability` only when an exact ratio leaves the
/// representable range.
pub fn compute_tech_coeff(t: &Matrix, p: &Vec<Rat>) -> (r: Result<Matrix, FioError>)
    requires
        t.wf(),
        rats_wf(p@),
    ensures
        r matches Ok(m) ==> m.wf() && m.snrows() == t.snrows() && m.sncols() == t.sncols()
            && forall|i: int, j: int|
            0 <= i < t.snrows() && 0 <= j < t.sncols() ==> peq(
                #[trigger] m@[i][j],
                pdiv(t@[i][j], p@[j]@),
            ),
        (r == Err::<Matrix, FioError>(FioError::DimensionMismatch)) <==> !(t.snrows()
            == t.sncols() && p@.len() == t.sncols()),
        (r == Err::<Matrix, FioError>(FioError::Degenerate)) <==> (t.snrows() == t.sncols()
            && p@.len() == t.sncols() && exists|k: int|
            0 <= k < p@.len() && (#[trigger] p@[k])@.0 == 0),
        r is Err ==> r == Err::<Matrix, FioError>(FioError::DimensionMismatch) || r == Err::<
            Matrix,
            FioError,
        >(FioError::Degenerate) || r == Err::<Matrix, FioError>(FioError::NumericalInstability),
        (t.snrows() == t.sncols() && p@.len() == t.sncols() && (forall|k: int|
            0 <= k < p@.len() ==> (#[trigger] p@[k])@.0 != 0) && (forall|i: int, j: int|
            0 <= i < t.snrows() && 0 <= j < t.sncols() ==> fits(
                #[trigger] pdiv(t@[i][j], p@[j]@),
            ))) ==> r is Ok,
{
    let n: usize = t.nrows();
    if t.ncols() != n || p.len() != n {
        return Err(FioError::DimensionMismatch);
    }
    let mut k: usize = 0;
    while k < n
        invariant
            k <= n,
            rats_wf(p@),
            p@.len() == n as int,
            n as int == t.snrows(),
            t.snrows() == t.sncols(),
            forall|q: int| 0 <= q < k as int ==> (#[trigger] p@[q])@.0 != 0,
        decreases n - k,
    {
        if p[k].is_zero() {
            proof {
                assert((p@[k as int])@.0 == 0);
            }
            return Err(FioError::Degenerate);
        }
        k = k + 1;
    }
    proof {
        t.lemma_size_bound();
    }
    let mut m = Matrix::zeros(n, n);
    let mut j: usize = 0;
    while j < n
        invariant
            j <= n,
            t.wf(),
            m.wf(),
            rats_wf(p@),
            n as int == t.snrows(),
            t.snrows() == t.sncols(),
            p@.len() == n as int,
            forall|q: int| 0 <= q < n as int ==> (#[trigger] p@[q])@.0 != 0,
            m.snrows() == n as int,
            m.sncols() == n as int,
            forall|a: int, b: int|
                0 <= a < n as int && 0 <= b < j as int ==> peq(
                    #[trigger] m@[a][b],
                    pdiv(t@[a][b], p@[b]@),
                ),
        decreases n - j,
    {
        let mut colv: Vec<Rat> = Vec::new();
        let mut i: usize = 0;
        while i < n
            invariant
                i <= n,
                j < n,
                t.wf(),
                n as int == t.snrows(),
                t.snrows() == t.sncols(),
                colv@.len() == i as int,
                forall|q: int|
                    0 <= q < i as int ==> (#[trigger] colv@[q]).wf() && colv@[q]@ == t@[q][j as int],
            decreases n - i,
        {
            colv.push(t.get(i, j));
            i = i + 1;
        }
        let pj = p[j];
        let qs = par_div_by(&colv, &pj);
        let mut i2: usize = 0;
        while i2 < n
            invariant
                i2 <= n,
                j < n,
                t.wf(),
                m.wf(),
                rats_wf(p@),
                n as int == t.snrows(),
                t.snrows() == t.sncols(),
                p@.len() == n as int,
                forall|q: int| 0 <= q < n as int ==> (#[trigger] p@[q])@.0 != 0,
                m.snrows() == n as int,
                m.sncols() == n as int,
                pj == p@[j as int],
                qs@.len() == n as int,
                colv@.len() == n as int,
                forall|q: int|
                    0 <= q < n as int ==> (#[trigger] colv@[q]).wf() && colv@[q]@ == t@[q][j as int],
                forall|q: int| 0 <= q < n as int ==> div_outcome(colv@[q], pj, #[trigger] qs@[q]),
                forall|a: int, b: int|
                    0 <= a < n as int && 0 <= b < j as int ==> peq(
                        #[trigger] m@[a][b],
                        pdiv(t@[a][b], p@[b]@),
                    ),
                forall|a: int|
                    0 <= a < i2 as int ==> peq(
                        #[trigger] m@[a][j as int],
                        pdiv(t@[a][j as int], p@[j as int]@),
                    ),
            decreases n - i2,
        {
            proof {
                assert(div_outcome(colv@[i2 as int], pj, qs@[i2 as int]));
                if forall|a: int, b: int|
                    0 <= a < t.snrows() && 0 <= b < t.sncols() ==> fits(
                        #[trigger] pdiv(t@[a][b], p@[b]@),
                    ) {
                    assert(fits(pdiv(t@[i2 as int][j as int], p@[j as int]@)));
                    assert(qs@[i2 as int] is Some);
                }
            }
            let q = match qs[i2] {
                None => { return Err(FioError::NumericalInstability); },
                Some(v) => v,
            };
            m.set(i2, j, q);
            i2 = i2 + 1;
        }
        j = j + 1;
    }
    Ok(m)
}

/// Invert the Leontief matrix `I - A` exactly. `Ok(L)` carries the proof
/// that `(I - A) * L` and `L * (I - A)` are both the identity.
///
/// Fails with `DimensionMismatch` when `A` is not square; with
/// `SingularMatrix` when the elimination meets a column without a usable
/// pivot; with `NumericalInstability` when an exact intermediate value leaves
/// the representable range.
pub fn compute_leontief_inverse(a: &Matrix) -> (r: Result<Matrix, FioError>)
    requires
        a.wf(),
    ensures
        r matches Ok(l) ==> l.wf() && l.snrows() == a.snrows() && l.sncols() == a.snrows()
            && is_inverse(sident_minus(a@), l@, a.snrows() as nat),
        (r == Err::<Matrix, FioError>(FioError::DimensionMismatch)) <==> a.snrows() != a.sncols(),
        r is Err ==> r == Err::<Matrix, FioError>(FioError::DimensionMismatch) || r == Err::<
            Matrix,
            FioError,
        >(FioError::SingularMatrix) || r == Err::<Matrix, FioError>(
            FioError::NumericalInstability,
        ),
        a.snrows() == 1 && a.sncols() == 1 ==> ((r == Err::<Matrix, FioError>(
            FioError::SingularMatrix,
        )) <==> sident_minus(a@)[0][0].0 == 0),
        a.snrows() == 1 && a.sncols() == 1 && fits(sident_minus(a@)[0][0]) && sident_minus(
            a@,
        )[0][0].0 != 0 ==> r is Ok,
{
    invert_ident_minus(a)
}

/// Shared core of the Leontief and Ghosh inversions: form `I - c` for a
/// square coefficient matrix `c` and invert it with a certificate.
pub(crate) fn invert_ident_minus(c: &Matrix) -> (r: Result<Matrix, FioError>)
    requires
        c.wf(),
    ensures
        r matches Ok(l) ==> l.wf() && l.snrows() == c.snrows() && l.sncols() == c.snrows()
            && is_inverse(sident_minus(c@), l@, c.snrows() as nat),
        (r == Err::<Matrix, FioError>(FioError::DimensionMismatch)) <==> c.snrows() != c.sncols(),
        r is Err ==> r == Err::<Matrix, FioError>(FioError::DimensionMismatch) || r == Err::<
            Matrix,
            FioError,
        >(FioError::SingularMatrix) || r == Err::<Matrix, FioError>(
            FioError::NumericalInstability,
        ),
        c.snrows() == 1 && c.sncols() == 1 ==> ((r == Err::<Matrix, FioError>(
            FioError::SingularMatrix,
        )) <==> sident_minus(c@)[0][0].0 == 0),
        c.snrows() == 1 && c.sncols() == 1 && fits(sident_minus(c@)[0][0]) && sident_minus(
            c@,
        )[0][0].0 != 0 ==> r is Ok,
{
    let n: usize = c.nrows();
    if c.ncols() != n {
        return Err(FioError::DimensionMismatch);
    }
    let imo = c.ident_minus();
    proof {
        if c.snrows() == 1 {
            let sm00 = sident_minus(c@)[0][0];
            assert(c@.len() == 1 && c@[0].len() == 1);
            assert(fits(c@[0][0]));
            assert(sm00 == psub(pone(), c@[0][0]));
            assert(sm00.1 == 1 * c@[0][0].1);
            lemma_pops_wf(pone(), c@[0][0]);
            if sm00.0 == 0 || fits(sm00) {
                assert(fits(sm00));
                assert forall|i: int, j: int|
                    0 <= i < c.snrows() && 0 <= j < c.sncols() implies fits(
                    #[trigger] sident_minus(c@)[i][j],
                ) by {
                    assert(i == 0 && j == 0);
                }
                assert(imo is Some);
            }
        }
    }
    let im = match imo {
        None => { return Err(FioError::NumericalInstability); },
        Some(m) => m,
    };
    proof {
        if c.snrows() == 1 {
            let sm00 = sident_minus(c@)[0][0];
            lemma_pops_wf(pone(), c@[0][0]);
            assert(peq(im@[0][0], sm00));
            crate::rational::lemma_peq_nonzero(im@[0][0], sm00);
        }
    }
    match mat_inverse(&im) {
        Ok(x) => {
            proof {
                let nn = c.snrows() as nat;
                let sm = sident_minus(c@);
                assert forall|i: int| 0 <= i < nn as int implies entries_wf(#[trigger] sm[i]) by {
                    assert forall|j: int| 0 <= j < sm[i].len() implies pwf(#[trigger] sm[i][j]) by {
                        assert(entries_wf(c@[i]));
                        assert(pwf(c@[i][j]));
                        lemma_pops_wf(
                            if i == j {
                                pone()
                            } else {
                                pzero()
                            },
                            c@[i][j],
                        );
                        assert(sm[i][j] == psub(
                            if i == j {
                                pone()
                            } else {
                                pzero()
                            },
                            c@[i][j],
                        ));
                    }
                }
                assert(mat_entries_wf(sm));
                assert(mat_peq(im@, sm));
                crate::matrix::lemma_is_inverse_congr(im@, sm, x@, nn);
            }
            Ok(x)
        },
        Err(e) => {
            proof {
                if c.snrows() == 1 {
                    let sm00 = sident_minus(c@)[0][0];
                    lemma_pops_wf(pone(), c@[0][0]);
                    assert((e == FioError::SingularMatrix) <==> im@[0][0].0 == 0);
                    assert((im@[0][0].0 == 0) <==> sm00.0 == 0);
                }
            }
            Err(e)
        },
    }
}

} // verus!
