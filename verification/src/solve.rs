//! Exact matrix inversion by Gauss-Jordan elimination, with a certificate.
//!
//! The elimination itself needs no trust: after computing a candidate, both
//! products with the input are formed exactly and compared with the identity,
//! so an `Ok` result carries a machine-checked proof that it is a two-sided
//! inverse. A column without a usable pivot is reported as `SingularMatrix`;
//! an intermediate value outside the representable range, or a candidate that
//! fails its final check, as `NumericalInstability`.

use vstd::prelude::*;
use crate::error::FioError;
use crate::matrix::Matrix;
use crate::matrix::is_inverse;
use crate::matrix::mat_peq;
use crate::matrix::sident;
use crate::matrix::smat_mul;
use crate::matrix::srow;
use crate::matrix::scol;
use crate::matrix::dot;
use crate::rational::Rat;
use crate::rational::peq;
use crate::rational::pwf;
use crate::rational::fits;
use crate::rational::pone;
use crate::rational::pzero;
use crate::rational::padd;
use crate::rational::pmul;
use crate::rational::pdiv;
use crate::rational::lemma_peq_trans;
use crate::rational::lemma_pmul_inv;

verus! {

/// Invert a square matrix exactly. `Ok(x)` proves that `x` is a two-sided
/// inverse of the input; `Err(SingularMatrix)` reports a column with no
/// nonzero pivot, and `Err(NumericalInstability)` an exact value outside the
/// representable range. The single-sector case is decided completely: a
/// 1 by 1 matrix is inverted exactly when its entry is nonzero.
pub fn mat_inverse(m: &Matrix) -> (r: Result<Matrix, FioError>)
    requires
        m.wf(),
        m.snrows() == m.sncols(),
    ensures
        r matches Ok(x) ==> x.wf() && x.snrows() == m.snrows() && x.sncols() == m.snrows()
            && is_inverse(m@, x@, m.snrows() as nat),
        r is Err ==> r == Err::<Matrix, FioError>(FioError::SingularMatrix) || r == Err::<
            Matrix,
            FioError,
        >(FioError::NumericalInstability),
        m.snrows() == 1 ==> ((r == Err::<Matrix, FioError>(FioError::SingularMatrix)) <==> m@[0][0].0
            == 0),
        m.snrows() == 1 && m@[0][0].0 != 0 ==> r is Ok,
{
    let n: usize = m.nrows();
    proof {
        m.lemma_size_bound();
    }
    if n == 1 {
        let v = m.get(0, 0);
        if v.is_zero() {
            return Err(FioError::SingularMatrix);
        }
        let one = Rat::one();
        let q = one.checked_div(&v);
        proof {
            if v@.0 >= 0 {
                assert(fits(pdiv(pone(), v@)));
            } else {
                assert(fits(pdiv(pone(), v@)));
            }
        }
        let inv = match q {
            None => { return Err(FioError::NumericalInstability); },
            Some(iv) => iv,
        };
        let mut x = Matrix::zeros(1, 1);
        x.set(0, 0, inv);
        proof {
            let m00 = m@[0][0];
            lemma_pmul_inv(m00, inv@);
            let ra = srow(m@, 0);
            let ca = scol(x@, 0);
            assert(ra.len() == 1 && ca.len() == 1);
            assert(ra.drop_last().len() == 0 && ca.drop_last().len() == 0);
            assert(dot(ra.drop_last(), ca.drop_last()) == pzero());
            assert(dot(ra, ca) == padd(pzero(), pmul(m00, inv@)));
            let pm1 = pmul(m00, inv@);
            assert(0 * pm1.1 == 0 && pm1.0 * 1 == pm1.0 && 1 * pm1.1 == pm1.1) by (nonlinear_arith);
            assert(padd(pzero(), pm1) == pm1);
            let rx = srow(x@, 0);
            let cm = scol(m@, 0);
            assert(rx.len() == 1 && cm.len() == 1);
            assert(rx.drop_last().len() == 0 && cm.drop_last().len() == 0);
            assert(dot(rx.drop_last(), cm.drop_last()) == pzero());
            assert(dot(rx, cm) == padd(pzero(), pmul(inv@, m00)));
            let pm2 = pmul(inv@, m00);
            assert(0 * pm2.1 == 0 && pm2.0 * 1 == pm2.0 && 1 * pm2.1 == pm2.1) by (nonlinear_arith);
            assert(padd(pzero(), pm2) == pm2);
            assert(sident(1)[0][0] == pone());
            assert(smat_mul(m@, x@, 1)[0][0] == dot(ra, ca));
            assert(smat_mul(x@, m@, 1)[0][0] == dot(rx, cm));
            assert(mat_peq(smat_mul(m@, x@, 1), sident(1)));
            assert(mat_peq(smat_mul(x@, m@, 1), sident(1)));
        }
        return Ok(x);
    }
    let mut w = m.duplicate();
    let mut x = Matrix::identity(n);
    let mut col: usize = 0;
    while col < n
        invariant
            col <= n,
            n != 1,
            m.wf(),
            w.wf(),
            x.wf(),
            n as int == m.snrows(),
            m.snrows() == m.sncols(),
            w.snrows() == n as int,
            w.sncols() == n as int,
            x.snrows() == n as int,
            x.sncols() == n as int,
        decreases n - col,
    {
        // find a row at or below `col` with a nonzero entry in this column
        let mut piv: usize = n;
        let mut rr: usize = col;
        while rr < n && piv == n
            invariant
                col <= rr <= n,
                n != 1,
                n as int == m.snrows(),
                col < n,
                piv == n || (col <= piv && piv < n),
                w.wf(),
                w.snrows() == n as int,
                w.sncols() == n as int,
            decreases n - rr,
        {
            if !w.get(rr, col).is_zero() {
                piv = rr;
            }
            rr = rr + 1;
        }
        if piv == n {
            return Err(FioError::SingularMatrix);
        }
        w.swap_rows(col, piv);
        x.swap_rows(col, piv);
        let pv = w.get(col, col);
        // scale the pivot row to a unit pivot
        let mut jj: usize = 0;
        while jj < n
            invariant
                jj <= n,
                n != 1,
                n as int == m.snrows(),
                col < n,
                pv.wf(),
                w.wf(),
                x.wf(),
                w.snrows() == n as int,
                w.sncols() == n as int,
                x.snrows() == n as int,
                x.sncols() == n as int,
            decreases n - jj,
        {
            let a = w.get(col, jj);
            let q = match a.checked_div(&pv) {
                None => { return Err(FioError::NumericalInstability); },
                Some(q) => q,
            };
            w.set(col, jj, q);
            let b = x.get(col, jj);
            let q2 = match b.checked_div(&pv) {
                None => { return Err(FioError::NumericalInstability); },
                Some(q) => q,
            };
            x.set(col, jj, q2);
            jj = jj + 1;
        }
        // eliminate the column from every other row
        let mut r2: usize = 0;
        while r2 < n
            invariant
                r2 <= n,
                n != 1,
                n as int == m.snrows(),
                col < n,
                w.wf(),
                x.wf(),
                w.snrows() == n as int,
                w.sncols() == n as int,
                x.snrows() == n as int,
                x.sncols() == n as int,
            decreases n - r2,
        {
            if r2 != col {
                let f = w.get(r2, col);
                if !f.is_zero() {
                    let mut j2: usize = 0;
                    while j2 < n
                        invariant
                            j2 <= n,
                            n != 1,
                            n as int == m.snrows(),
                            col < n,
                            r2 < n,
                            f.wf(),
                            w.wf(),
                            x.wf(),
                            w.snrows() == n as int,
                            w.sncols() == n as int,
                            x.snrows() == n as int,
                            x.sncols() == n as int,
                        decreases n - j2,
                    {
                        let t = match f.checked_mul(&w.get(col, j2)) {
                            None => { return Err(FioError::NumericalInstability); },
                            Some(t) => t,
                        };
                        let nv = match w.get(r2, j2).checked_sub(&t) {
                            None => { return Err(FioError::NumericalInstability); },
                            Some(v) => v,
                        };
                        w.set(r2, j2, nv);
                        let t2 = match f.checked_mul(&x.get(col, j2)) {
                            None => { return Err(FioError::NumericalInstability); },
                            Some(t) => t,
                        };
                        let nv2 = match x.get(r2, j2).checked_sub(&t2) {
                            None => { return Err(FioError::NumericalInstability); },
                            Some(v) => v,
                        };
                        x.set(r2, j2, nv2);
                        j2 = j2 + 1;
                    }
                }
            }
            r2 = r2 + 1;
        }
        col = col + 1;
    }
    // certify the candidate: both exact products must be the identity
    let prod1 = match m.mat_mul(&x) {
        None => { return Err(FioError::NumericalInstability); },
        Some(p) => p,
    };
    let prod2 = match x.mat_mul(m) {
        None => { return Err(FioError::NumericalInstability); },
        Some(p) => p,
    };
    if prod1.equals_identity() && prod2.equals_identity() {
        proof {
            let ghost nn = m.snrows() as nat;
            assert forall|i: int, j: int| 0 <= i < nn && 0 <= j < nn implies peq(
                #[trigger] smat_mul(m@, x@, nn)[i][j],
                sident(nn)[i][j],
            ) by {
                assert(smat_mul(m@, x@, nn)[i][j] == dot(srow(m@, i), scol(x@, j)));
                assert(peq(prod1@[i][j], dot(srow(m@, i), scol(x@, j))));
                assert(peq(prod1@[i][j], sident(nn)[i][j]));
                assert(pwf(prod1@[i][j]));
                assert(peq(dot(srow(m@, i), scol(x@, j)), prod1@[i][j]));
                lemma_peq_trans(
                    dot(srow(m@, i), scol(x@, j)),
                    prod1@[i][j],
                    sident(nn)[i][j],
                );
            }
            assert forall|i: int, j: int| 0 <= i < nn && 0 <= j < nn implies peq(
                #[trigger] smat_mul(x@, m@, nn)[i][j],
                sident(nn)[i][j],
            ) by {
                assert(smat_mul(x@, m@, nn)[i][j] == dot(srow(x@, i), scol(m@, j)));
                assert(peq(prod2@[i][j], dot(srow(x@, i), scol(m@, j))));
                assert(peq(prod2@[i][j], sident(nn)[i][j]));
                assert(pwf(prod2@[i][j]));
                assert(peq(dot(srow(x@, i), scol(m@, j)), prod2@[i][j]));
                lemma_peq_trans(
                    dot(srow(x@, i), scol(m@, j)),
                    prod2@[i][j],
                    sident(nn)[i][j],
                );
            }
            assert(mat_peq(smat_mul(m@, x@, nn), sident(nn)));
            assert(mat_peq(smat_mul(x@, m@, nn), sident(nn)));
        }
        Ok(x)
    } else {
        Err(FioError::NumericalInstability)
    }
}

} // verus!
