//! Allocation coefficients and the Ghosh inverse (supply side).

use vstd::prelude::*;
use crate::error::FioError;
use crate::matrix::Matrix;
use crate::matrix::rats_wf;
use crate::matrix::is_inverse;
use crate::matrix::sident_minus;
use crate::parallel::par_div_by;
use crate::parallel::div_outcome;
use crate::rational::Rat;
use crate::rational::peq;
use crate::rational::pdiv;
use crate::rational::fits;

verus! {

/// Derive the allocation coefficients matrix `F`: the rowwise ratio of the
/// transactions matrix to total production, `F[i][j] = T[i][j] / p[i]`.
///
/// Fails with `DimensionMismatch` when `T` is not square or `p` does not
/// match its side; with `Degenerate`, before any division, when some `p[k]`
/// is zero; with `NumericalInstability` only when an exact ratio leaves the
/// representable range.
pub fn compute_allocation_coeff(t: &Matrix, p: &Vec<Rat>) -> (r: Result<Matrix, FioError>)
    requires
        t.wf(),
        rats_wf(p@),
    ensures
        r matches Ok(m) ==> m.wf() && m.snrows() == t.snrows() && m.sncols() == t.sncols()
            && forall|i: int, j: int|
            0 <= i < t.snrows() && 0 <= j < t.sncols() ==> peq(
                #[trigger] m@[i][j],
                pdiv(t@[i][j], p@[i]@),
            ),
        (r == Err::<Matrix, FioError>(FioError::DimensionMismatch)) <==> !(t.snrows()
            == t.sncols() && p@.len() == t.sncols()),
        (r == Err::<Matrix, FioError>(FioError::Degenerate)) <==> (t.snrows() == t.sncols()
            && p@.len() == t.sncols() && exists|k: int|
            0 <= k < p@.len() && (#[trigger] p@[k])@.0 == 0),
        r is Err ==> r == Err::<Matrix, FioError>(FioError::DimensionMismatch) || r == Err::<
            Matrix,
            FioError,
        >(FioError::Degenerate) || r == Err::<Matrix, FioError>(FioError::NumericalInstability),
        (t.snrows() == t.sncols() && p@.len() == t.sncols() && (forall|k: int|
            0 <= k < p@.len() ==> (#[trigger] p@[k])@.0 != 0) && (forall|i: int, j: int|
            0 <= i < t.snrows() && 0 <= j < t.sncols() ==> fits(
                #[trigger] pdiv(t@[i][j], p@[i]@),
            ))) ==> r is Ok,
{
    let n: usize = t.nrows();
    if t.ncols() != n || p.len() != n {
        return Err(FioError::DimensionMismatch);
    }
    let mut k: usize = 0;
    while k < n
        invariant
            k <= n,
            rats_wf(p@),
            p@.len() == n as int,
            n as int == t.snrows(),
            t.snrows() == t.sncols(),
            forall|q: int| 0 <= q < k as int ==> (#[trigger] p@[q])@.0 != 0,
        decreases n - k,
    {
        if p[k].is_zero() {
            proof {
                assert((p@[k as int])@.0 == 0);
            }
            return Err(FioError::Degenerate);
        }
        k = k + 1;
    }
    proof {
        t.lemma_size_bound();
    }
    let mut m = Matrix::zeros(n, n);
    let mut i: usize = 0;
    while i < n
        invariant
            i <= n,
            t.wf(),
            m.wf(),
            rats_wf(p@),
            n as int == t.snrows(),
            t.snrows() == t.sncols(),
            p@.len() == n as int,
            forall|q: int| 0 <= q < n as int ==> (#[trigger] p@[q])@.0 != 0,
            m.snrows() == n as int,
            m.sncols() == n as int,
            forall|a: int, b: int|
                0 <= a < i as int && 0 <= b < n as int ==> peq(
                    #[trigger] m@[a][b],
                    pdiv(t@[a][b], p@[a]@),
                ),
        decreases n - i,
    {
        let mut rowv: Vec<Rat> = Vec::new();
        let mut j: usize = 0;
        while j < n
            invariant
                j <= n,
                i < n,
                t.wf(),
                n as int == t.snrows(),
                t.snrows() == t.sncols(),
                rowv@.len() == j as int,
                forall|q: int|
                    0 <= q < j as int ==> (#[trigger] rowv@[q]).wf() && rowv@[q]@ == t@[i as int][q],
            decreases n - j,
        {
            rowv.push(t.get(i, j));
            j = j + 1;
        }
        let pi = p[i];
        let qs = par_div_by(&rowv, &pi);
        let mut j2: usize = 0;
        while j2 < n
            invariant
                j2 <= n,
                i < n,
                t.wf(),
                m.wf(),
                rats_wf(p@),
                n as int == t.snrows(),
                t.snrows() == t.sncols(),
                p@.len() == n as int,
                forall|q: int| 0 <= q < n as int ==> (#[trigger] p@[q])@.0 != 0,
                m.snrows() == n as int,
                m.sncols() == n as int,
                pi == p@[i as int],
                qs@.len() == n as int,
                rowv@.len() == n as int,
                forall|q: int|
                    0 <= q < n as int ==> (#[trigger] rowv@[q]).wf() && rowv@[q]@ == t@[i as int][q],
                forall|q: int| 0 <= q < n as int ==> div_outcome(rowv@[q], pi, #[trigger] qs@[q]),
                forall|a: int, b: int|
                    0 <= a < i as int && 0 <= b < n as int ==> peq(
                        #[trigger] m@[a][b],
                        pdiv(t@[a][b], p@[a]@),
                    ),
                forall|b: int|
                    0 <= b < j2 as int ==> peq(
                        #[trigger] m@[i as int][b],
                        pdiv(t@[i as int][b], p@[i as int]@),
                    ),
            decreases n - j2,
        {
            proof {
                assert(div_outcome(rowv@[j2 as int], pi, qs@[j2 as int]));
                if forall|a: int, b: int|
                    0 <= a < t.snrows() && 0 <= b < t.sncols() ==> fits(
                        #[trigger] pdiv(t@[a][b], p@[a]@),
                    ) {
                    assert(fits(pdiv(t@[i as int][j2 as int], p@[i as int]@)));
                    assert(qs@[j2 as int] is Some);
                }
            }
            let q = match qs[j2] {
                None => { return Err(FioError::NumericalInstability); },
                Some(v) => v,
            };
            m.set(i, j2, q);
            j2 = j2 + 1;
        }
        i = i + 1;
    }
    Ok(m)
}

/// Invert the Ghosh matrix `I - F` exactly. `Ok(G)` carries the proof that
/// `(I - F) * G` and `G * (I - F)` are both the identity.
///
/// Fails with `DimensionMismatch` when `F` is not square; with
/// `SingularMatrix` when the elimination meets a column without a usable
/// pivot; with `NumericalInstability` when an exact intermediate value leaves
/// the representable range.
pub fn compute_ghosh_inverse(f: &Matrix) -> (r: Result<Matrix, FioError>)
    requires
        f.wf(),
    ensures
        r matches Ok(g) ==> g.wf() && g.snrows() == f.snrows() && g.sncols() == f.snrows()
            && is_inverse(sident_minus(f@), g@, f.snrows() as nat),
        (r == Err::<Matrix, FioError>(FioError::DimensionMismatch)) <==> f.snrows() != f.sncols(),
        r is Err ==> r == Err::<Matrix, FioError>(FioError::DimensionMismatch) || r == Err::<
            Matrix,
            FioError,
        >(FioError::SingularMatrix) || r == Err::<Matrix, FioError>(
            FioError::NumericalInstability,
        ),
        f.snrows() == 1 && f.sncols() == 1 ==> ((r == Err::<Matrix, FioError>(
            FioError::SingularMatrix,
        )) <==> sident_minus(f@)[0][0].0 == 0),
        f.snrows() == 1 && f.sncols() == 1 && fits(sident_minus(f@)[0][0]) && sident_minus(
            f@,
        )[0][0].0 != 0 ==> r is Ok,
{
    crate::leontief::invert_ident_minus(f)
}

} // verus!
