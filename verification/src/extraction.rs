//! Hypothetical extraction: the impact of removing one sector's linkages.
//!
//! For each sector the matching column (demand side) or row (supply side) of
//! the coefficient matrix is zeroed, the system is re-inverted with a
//! certificate, and the change in total output is recorded in absolute and
//! relative form. A square matrix has at most one two-sided inverse up to
//! rational equality, so the existentially stated certificate pins each
//! reported pair down.

use vstd::prelude::*;
use crate::error::FioError;
use crate::matrix::Matrix;
use crate::matrix::rats;
use crate::matrix::rats_wf;
use crate::matrix::entries_wf;
use crate::matrix::entries_nonneg;
use crate::matrix::is_inverse;
use crate::matrix::sident_minus;
use crate::matrix::szero_col;
use crate::matrix::szero_row;
use crate::matrix::scol;
use crate::matrix::srow;
use crate::matrix::vsum;
use crate::matrix::dot;
use crate::matrix::lemma_vsum_wf;
use crate::matrix::lemma_vsum_congr;
use crate::matrix::lemma_dot_wf;
use crate::matrix::lemma_dot_congr;
use crate::matrix::vec_sum;
use crate::rational::Rat;
use crate::rational::peq;
use crate::rational::pwf;
use crate::rational::pzero;
use crate::rational::pone;
use crate::rational::padd;
use crate::rational::psub;
use crate::rational::pdiv;
use crate::rational::lemma_peq_trans;
use crate::rational::lemma_padd_congr;
use crate::rational::lemma_pdiv_congr;
use crate::rational::lemma_pdiv_wf;
use crate::rational::lemma_pops_wf;
use crate::rational::lemma_peq_nonzero;
use crate::rational::fits;
use crate::leontief::invert_ident_minus;

verus! {

/// Row sums of the final-demand matrix.
pub open spec fn sfd_rowsums(fd: Seq<Seq<(int, int)>>) -> Seq<(int, int)> {
    Seq::new(fd.len(), |i: int| vsum(fd[i]))
}

/// Column sums of the value-added matrix, over `n` columns.
pub open spec fn sva_colsums(va: Seq<Seq<(int, int)>>, n: nat) -> Seq<(int, int)> {
    Seq::new(n, |j: int| vsum(scol(va, j)))
}

/// Matrix times column vector.
pub open spec fn smatvec(m: Seq<Seq<(int, int)>>, v: Seq<(int, int)>) -> Seq<(int, int)> {
    Seq::new(m.len(), |i: int| dot(m[i], v))
}

/// Row vector times matrix, over `n` columns.
pub open spec fn svecmat(v: Seq<(int, int)>, m: Seq<Seq<(int, int)>>, n: nat) -> Seq<(int, int)> {
    Seq::new(n, |j: int| dot(v, scol(m, j)))
}

/// The reported pair for sector `j` of the backward extraction: some
/// certified inverse `li` of `I - A` with column `j` of `A` zeroed has
/// `absd = sum(li * rowsum(FD)) - sum(p)` and `rel = absd / sum(p)`.
pub open spec fn backward_cell_ok(
    a: Seq<Seq<(int, int)>>,
    fd: Seq<Seq<(int, int)>>,
    p: Seq<Rat>,
    absd: (int, int),
    rel: (int, int),
    j: int,
) -> bool {
    exists|li: Seq<Seq<(int, int)>>|
        is_inverse(sident_minus(szero_col(a, j)), li, a.len())
            && peq(absd, psub(vsum(smatvec(li, sfd_rowsums(fd))), vsum(rats(p))))
            && peq(rel, pdiv(psub(vsum(smatvec(li, sfd_rowsums(fd))), vsum(rats(p))), vsum(rats(p))))
}

/// The reported pair for sector `i` of the forward extraction: some
/// certified inverse `gi` of `I - F` with row `i` of `F` zeroed has
/// `absd = sum(colsum(VA) * gi) - sum(p)` and `rel = absd / sum(p)`.
pub open spec fn forward_cell_ok(
    f: Seq<Seq<(int, int)>>,
    va: Seq<Seq<(int, int)>>,
    p: Seq<Rat>,
    absd: (int, int),
    rel: (int, int),
    i: int,
) -> bool {
    exists|gi: Seq<Seq<(int, int)>>|
        is_inverse(sident_minus(szero_row(f, i)), gi, f.len())
            && peq(
            absd,
            psub(vsum(svecmat(sva_colsums(va, f.len()), gi, f.len())), vsum(rats(p))),
        )
            && peq(
            rel,
            pdiv(
                psub(vsum(svecmat(sva_colsums(va, f.len()), gi, f.len())), vsum(rats(p))),
                vsum(rats(p)),
            ),
        )
}

/// Backward (demand-side) hypothetical extraction: for each sector `j`, zero
/// column `j` of the technical coefficients, re-invert, and report the
/// absolute and relative change of total output against final demand.
///
/// Dimensions and the production divisor are validated before any
/// factorization: a zero entry of `p` (or a zero total production) reports
/// `Degenerate` without touching the elimination. A sector whose zeroed
/// system is singular is reported as `SingularMatrix`; no partial result is
/// ever returned.
pub fn compute_extraction_backward(a: &Matrix, fd: &Matrix, p: &Vec<Rat>) -> (r: Result<
    Matrix,
    FioError,
>)
    requires
        a.wf(),
        fd.wf(),
        rats_wf(p@),
    ensures
        r matches Ok(m) ==> m.wf() && m.snrows() == a.snrows() && m.sncols() == 2 && forall|j: int|
            0 <= j < a.snrows() ==> backward_cell_ok(a@, fd@, p@, #[trigger] m@[j][0], m@[j][1], j),
        (r == Err::<Matrix, FioError>(FioError::DimensionMismatch)) <==> !(a.snrows()
            == a.sncols() && fd.snrows() == a.snrows() && p@.len() == a.snrows()),
        (a.snrows() == a.sncols() && fd.snrows() == a.snrows() && p@.len() == a.snrows()
            && exists|k: int| 0 <= k < p@.len() && (#[trigger] p@[k])@.0 == 0) ==> r == Err::<
            Matrix,
            FioError,
        >(FioError::Degenerate),
        (r == Err::<Matrix, FioError>(FioError::Degenerate)) ==> ((exists|k: int|
            0 <= k < p@.len() && (#[trigger] p@[k])@.0 == 0) || peq(vsum(rats(p@)), pzero())),
        (a.snrows() == a.sncols() && fd.snrows() == a.snrows() && p@.len() == a.snrows()
            && entries_nonneg(rats(p@)) && fits(vsum(rats(p@)))) ==> ((r == Err::<
            Matrix,
            FioError,
        >(FioError::Degenerate)) <==> ((exists|k: int|
            0 <= k < p@.len() && (#[trigger] p@[k])@.0 == 0) || peq(vsum(rats(p@)), pzero()))),
        a.snrows() == 1 ==> r != Err::<Matrix, FioError>(FioError::SingularMatrix),
        r is Err ==> r == Err::<Matrix, FioError>(FioError::DimensionMismatch) || r == Err::<
            Matrix,
            FioError,
        >(FioError::Degenerate) || r == Err::<Matrix, FioError>(FioError::SingularMatrix) || r
            == Err::<Matrix, FioError>(FioError::NumericalInstability),
{
    let n: usize = a.nrows();
    if a.ncols() != n || fd.nrows() != n || p.len() != n {
        return Err(FioError::DimensionMismatch);
    }
    let mut k: usize = 0;
    while k < n
        invariant
            k <= n,
            rats_wf(p@),
            p@.len() == n as int,
            n as int == a.snrows(),
            a.snrows() == a.sncols(),
            fd.snrows() == a.snrows(),
            forall|q: int| 0 <= q < k as int ==> (#[trigger] p@[q])@.0 != 0,
        decreases n - k,
    {
        if p[k].is_zero() {
            proof {
                assert((p@[k as int])@.0 == 0);
            }
            return Err(FioError::Degenerate);
        }
        k = k + 1;
    }
    let sump0 = vec_sum(p);
    proof {
        if entries_nonneg(rats(p@)) && fits(vsum(rats(p@))) {
            assert(sump0 is Some);
        }
    }
    let sump = match sump0 {
        None => { return Err(FioError::NumericalInstability); },
        Some(s) => s,
    };
    let ghost spt = vsum(rats(p@));
    proof {
        assert forall|q: int| 0 <= q < rats(p@).len() implies pwf(#[trigger] rats(p@)[q]) by {
            assert(rats(p@)[q] == p@[q]@);
        }
        lemma_vsum_wf(rats(p@));
        lemma_peq_nonzero(sump@, spt);
    }
    if sump.is_zero() {
        proof {
            crate::rational::lemma_peq_zero(spt);
        }
        return Err(FioError::Degenerate);
    }
    proof {
        crate::rational::lemma_peq_zero(spt);
    }
    // row sums of the final-demand matrix
    let nfd: usize = fd.nrows();
    let mut fdsums: Vec<Rat> = Vec::new();
    let mut i: usize = 0;
    while i < nfd
        invariant
            i <= nfd,
            fd.wf(),
            nfd as int == fd.snrows(),
            n as int == a.snrows(),
            a.snrows() == a.sncols(),
            fd.snrows() == a.snrows(),
            p@.len() == n as int,
            forall|q: int| 0 <= q < n as int ==> (#[trigger] p@[q])@.0 != 0,
            !peq(vsum(rats(p@)), pzero()),
            fdsums@.len() == i as int,
            rats_wf(fdsums@),
            forall|q: int| 0 <= q < i as int ==> peq((#[trigger] fdsums@[q])@, vsum(fd@[q])),
        decreases nfd - i,
    {
        let s = match fd.row_sum(i) {
            None => { return Err(FioError::NumericalInstability); },
            Some(s) => s,
        };
        proof {
            assert(srow(fd@, i as int) == fd@[i as int]);
        }
        fdsums.push(s);
        i = i + 1;
    }
    proof {
        a.lemma_size_bound();
        assert((n as int) * 2 <= usize::MAX as int) by (nonlinear_arith)
            requires
                (n as int) * (n as int) <= usize::MAX as int,
                usize::MAX as int >= 0xffff_ffff,
                n as int >= 0;
    }
    let mut m = Matrix::zeros(n, 2);
    let mut j: usize = 0;
    while j < n
        invariant
            j <= n,
            a.wf(),
            fd.wf(),
            m.wf(),
            rats_wf(p@),
            n as int == a.snrows(),
            a.snrows() == a.sncols(),
            fd.snrows() == a.snrows(),
            p@.len() == n as int,
            nfd as int == fd.snrows(),
            forall|q: int| 0 <= q < n as int ==> (#[trigger] p@[q])@.0 != 0,
            !peq(vsum(rats(p@)), pzero()),
            sump.wf(),
            sump@.0 != 0,
            peq(sump@, spt),
            spt == vsum(rats(p@)),
            pwf(spt),
            spt.0 != 0,
            fdsums@.len() == n as int,
            rats_wf(fdsums@),
            forall|q: int| 0 <= q < n as int ==> peq((#[trigger] fdsums@[q])@, vsum(fd@[q])),
            m.snrows() == n as int,
            m.sncols() == 2,
            forall|q: int|
                0 <= q < j as int ==> backward_cell_ok(a@, fd@, p@, #[trigger] m@[q][0], m@[q][1], q),
        decreases n - j,
    {
        let a2 = a.with_zero_col(j);
        proof {
            assert(a2@ =~~= szero_col(a@, j as int));
        }
        let li = match invert_ident_minus(&a2) {
            Err(e) => {
                proof {
                    assert(e != FioError::DimensionMismatch);
                    assert(e == FioError::SingularMatrix || e == FioError::NumericalInstability);
                    if n == 1 {
                        // the zeroed single column leaves the identity system
                        assert(a2@[0][0] == szero_col(a@, j as int)[0][0]);
                        assert(a2@[0][0] == pzero());
                        let sm00 = sident_minus(a2@)[0][0];
                        assert(sm00 == psub(pone(), pzero()));
                        assert(sm00.0 == 1 * 1 - 0 * 1);
                        assert(e != FioError::SingularMatrix);
                    }
                }
                return Err(e);
            },
            Ok(x) => x,
        };
        let newout = match li.mat_vec_mul(&fdsums) {
            None => { return Err(FioError::NumericalInstability); },
            Some(v) => v,
        };
        let tot = match vec_sum(&newout) {
            None => { return Err(FioError::NumericalInstability); },
            Some(t) => t,
        };
        let delta = match tot.checked_sub(&sump) {
            None => { return Err(FioError::NumericalInstability); },
            Some(d) => d,
        };
        let rel = match delta.checked_div(&sump) {
            None => { return Err(FioError::NumericalInstability); },
            Some(d) => d,
        };
        proof {
            let jj = j as int;
            let nn = a.snrows() as nat;
            let ghost fr = sfd_rowsums(fd@);
            let ghost sv = smatvec(li@, fr);
            // the certified inverse is an inverse of the zero-column system
            assert(is_inverse(sident_minus(szero_col(a@, jj)), li@, nn));
            // the spec-level new-output vector is well-formed
            assert forall|q: int| 0 <= q < fr.len() implies pwf(#[trigger] fr[q]) by {
                assert(fr[q] == vsum(fd@[q]));
                assert(entries_wf(fd@[q]));
                lemma_vsum_wf(fd@[q]);
            }
            assert forall|q: int| 0 <= q < rats(fdsums@).len() implies pwf(
                #[trigger] rats(fdsums@)[q],
            ) by {
                assert(rats(fdsums@)[q] == fdsums@[q]@);
            }
            // each computed entry denotes the matching spec entry
            assert forall|q: int| 0 <= q < nn implies peq(#[trigger] rats(newout@)[q], sv[q]) by {
                assert(rats(newout@)[q] == newout@[q]@);
                assert(peq(newout@[q]@, dot(srow(li@, q), rats(fdsums@))));
                assert(srow(li@, q) == li@[q]);
                assert(entries_wf(li@[q]));
                assert forall|z: int| 0 <= z < rats(fdsums@).len() implies peq(
                    #[trigger] rats(fdsums@)[z],
                    fr[z],
                ) by {
                    assert(rats(fdsums@)[z] == fdsums@[z]@);
                }
                lemma_dot_congr(rats(fdsums@), fr, rats(fdsums@), fr);
                lemma_dot_congr(li@[q], li@[q], rats(fdsums@), fr);
                lemma_dot_wf(li@[q], rats(fdsums@));
                lemma_peq_trans(newout@[q]@, dot(li@[q], rats(fdsums@)), dot(li@[q], fr));
                assert(sv[q] == dot(li@[q], fr));
            }
            assert forall|q: int| 0 <= q < sv.len() implies pwf(#[trigger] sv[q]) by {
                assert(sv[q] == dot(li@[q], fr));
                assert(entries_wf(li@[q]));
                lemma_dot_wf(li@[q], fr);
            }
            assert forall|q: int| 0 <= q < rats(newout@).len() implies pwf(
                #[trigger] rats(newout@)[q],
            ) by {
                assert(rats(newout@)[q] == newout@[q]@);
            }
            // total new output, delta, and the relative delta
            lemma_vsum_congr(rats(newout@), sv);
            lemma_vsum_wf(rats(newout@));
            lemma_vsum_wf(sv);
            lemma_peq_trans(tot@, vsum(rats(newout@)), vsum(sv));
            lemma_padd_congr(tot@, vsum(sv), sump@, spt);
            lemma_pops_wf(tot@, sump@);
            lemma_pops_wf(vsum(sv), spt);
            lemma_peq_trans(delta@, psub(tot@, sump@), psub(vsum(sv), spt));
            lemma_pdiv_congr(delta@, psub(vsum(sv), spt), sump@, spt);
            lemma_pdiv_wf(delta@, sump@);
            lemma_pdiv_wf(psub(vsum(sv), spt), spt);
            lemma_peq_trans(rel@, pdiv(delta@, sump@), pdiv(psub(vsum(sv), spt), spt));
        }
        m.set(j, 0, delta);
        m.set(j, 1, rel);
        proof {
            let jj = j as int;
            let ghost fr = sfd_rowsums(fd@);
            let ghost sv = smatvec(li@, fr);
            assert(m@[jj][0] == delta@ && m@[jj][1] == rel@);
            assert(is_inverse(sident_minus(szero_col(a@, jj)), li@, a@.len()) && peq(
                delta@,
                psub(vsum(smatvec(li@, sfd_rowsums(fd@))), vsum(rats(p@))),
            ) && peq(
                rel@,
                pdiv(psub(vsum(smatvec(li@, sfd_rowsums(fd@))), vsum(rats(p@))), vsum(rats(p@))),
            ));
            assert(backward_cell_ok(a@, fd@, p@, m@[jj][0], m@[jj][1], jj));
        }
        j = j + 1;
    }
    Ok(m)
}

/// Forward (supply-side) hypothetical extraction: for each sector `i`, zero
/// row `i` of the allocation coefficients, re-invert, and report the
/// absolute and relative change of total output against value added.
///
/// Validation mirrors the backward side: dimensions and the production
/// divisor are checked before any factorization, and a singular zeroed
/// system is reported as `SingularMatrix`.
pub fn compute_extraction_forward(f: &Matrix, va: &Matrix, p: &Vec<Rat>) -> (r: Result<
    Matrix,
    FioError,
>)
    requires
        f.wf(),
        va.wf(),
        rats_wf(p@),
    ensures
        r matches Ok(m) ==> m.wf() && m.snrows() == f.snrows() && m.sncols() == 2 && forall|i: int|
            0 <= i < f.snrows() ==> forward_cell_ok(f@, va@, p@, #[trigger] m@[i][0], m@[i][1], i),
        (r == Err::<Matrix, FioError>(FioError::DimensionMismatch)) <==> !(f.snrows()
            == f.sncols() && va.sncols() == f.snrows() && p@.len() == f.snrows()),
        (f.snrows() == f.sncols() && va.sncols() == f.snrows() && p@.len() == f.snrows()
            && exists|k: int| 0 <= k < p@.len() && (#[trigger] p@[k])@.0 == 0) ==> r == Err::<
            Matrix,
            FioError,
        >(FioError::Degenerate),
        (r == Err::<Matrix, FioError>(FioError::Degenerate)) ==> ((exists|k: int|
            0 <= k < p@.len() && (#[trigger] p@[k])@.0 == 0) || peq(vsum(rats(p@)), pzero())),
        (f.snrows() == f.sncols() && va.sncols() == f.snrows() && p@.len() == f.snrows()
            && entries_nonneg(rats(p@)) && fits(vsum(rats(p@)))) ==> ((r == Err::<
            Matrix,
            FioError,
        >(FioError::Degenerate)) <==> ((exists|k: int|
            0 <= k < p@.len() && (#[trigger] p@[k])@.0 == 0) || peq(vsum(rats(p@)), pzero()))),
        f.snrows() == 1 ==> r != Err::<Matrix, FioError>(FioError::SingularMatrix),
        r is Err ==> r == Err::<Matrix, FioError>(FioError::DimensionMismatch) || r == Err::<
            Matrix,
            FioError,
        >(FioError::Degenerate) || r == Err::<Matrix, FioError>(FioError::SingularMatrix) || r
            == Err::<Matrix, FioError>(FioError::NumericalInstability),
{
    let n: usize = f.nrows();
    if f.ncols() != n || va.ncols() != n || p.len() != n {
        return Err(FioError::DimensionMismatch);
    }
    let mut k: usize = 0;
    while k < n
        invariant
            k <= n,
            rats_wf(p@),
            p@.len() == n as int,
            n as int == f.snrows(),
            f.snrows() == f.sncols(),
            va.sncols() == f.snrows(),
            forall|q: int| 0 <= q < k as int ==> (#[trigger] p@[q])@.0 != 0,
        decreases n - k,
    {
        if p[k].is_zero() {
            proof {
                assert((p@[k as int])@.0 == 0);
            }
            return Err(FioError::Degenerate);
        }
        k = k + 1;
    }
    let sump0 = vec_sum(p);
    proof {
        if entries_nonneg(rats(p@)) && fits(vsum(rats(p@))) {
            assert(sump0 is Some);
        }
    }
    let sump = match sump0 {
        None => { return Err(FioError::NumericalInstability); },
        Some(s) => s,
    };
    let ghost spt = vsum(rats(p@));
    proof {
        assert forall|q: int| 0 <= q < rats(p@).len() implies pwf(#[trigger] rats(p@)[q]) by {
            assert(rats(p@)[q] == p@[q]@);
        }
        lemma_vsum_wf(rats(p@));
        lemma_peq_nonzero(sump@, spt);
    }
    if sump.is_zero() {
        proof {
            crate::rational::lemma_peq_zero(spt);
        }
        return Err(FioError::Degenerate);
    }
    proof {
        crate::rational::lemma_peq_zero(spt);
    }
    // column sums of the value-added matrix
    let mut vasums: Vec<Rat> = Vec::new();
    let mut jva: usize = 0;
    while jva < n
        invariant
            jva <= n,
            va.wf(),
            n as int == f.snrows(),
            f.snrows() == f.sncols(),
            va.sncols() == f.snrows(),
            p@.len() == n as int,
            forall|q: int| 0 <= q < n as int ==> (#[trigger] p@[q])@.0 != 0,
            !peq(vsum(rats(p@)), pzero()),
            vasums@.len() == jva as int,
            rats_wf(vasums@),
            forall|q: int| 0 <= q < jva as int ==> peq((#[trigger] vasums@[q])@, vsum(scol(va@, q))),
        decreases n - jva,
    {
        let s = match va.col_sum(jva) {
            None => { return Err(FioError::NumericalInstability); },
            Some(s) => s,
        };
        vasums.push(s);
        jva = jva + 1;
    }
    proof {
        f.lemma_size_bound();
        assert((n as int) * 2 <= usize::MAX as int) by (nonlinear_arith)
            requires
                (n as int) * (n as int) <= usize::MAX as int,
                usize::MAX as int >= 0xffff_ffff,
                n as int >= 0;
    }
    let mut m = Matrix::zeros(n, 2);
    let mut i: usize = 0;
    while i < n
        invariant
            i <= n,
            f.wf(),
            va.wf(),
            m.wf(),
            rats_wf(p@),
            n as int == f.snrows(),
            f.snrows() == f.sncols(),
            va.sncols() == f.snrows(),
            p@.len() == n as int,
            forall|q: int| 0 <= q < n as int ==> (#[trigger] p@[q])@.0 != 0,
            !peq(vsum(rats(p@)), pzero()),
            sump.wf(),
            sump@.0 != 0,
            peq(sump@, spt),
            spt == vsum(rats(p@)),
            pwf(spt),
            spt.0 != 0,
            vasums@.len() == n as int,
            rats_wf(vasums@),
            forall|q: int| 0 <= q < n as int ==> peq((#[trigger] vasums@[q])@, vsum(scol(va@, q))),
            m.snrows() == n as int,
            m.sncols() == 2,
            forall|q: int|
                0 <= q < i as int ==> forward_cell_ok(f@, va@, p@, #[trigger] m@[q][0], m@[q][1], q),
        decreases n - i,
    {
        let f2 = f.with_zero_row(i);
        proof {
            assert(f2@ =~~= szero_row(f@, i as int));
        }
        let gi = match invert_ident_minus(&f2) {
            Err(e) => {
                proof {
                    assert(e != FioError::DimensionMismatch);
                    assert(e == FioError::SingularMatrix || e == FioError::NumericalInstability);
                    if n == 1 {
                        // the zeroed single row leaves the identity system
                        assert(f2@[0][0] == szero_row(f@, i as int)[0][0]);
                        assert(f2@[0][0] == pzero());
                        let sm00 = sident_minus(f2@)[0][0];
                        assert(sm00 == psub(pone(), pzero()));
                        assert(sm00.0 == 1 * 1 - 0 * 1);
                        assert(e != FioError::SingularMatrix);
                    }
                }
                return Err(e);
            },
            Ok(x) => x,
        };
        let newout = match gi.vec_mat_mul(&vasums) {
            None => { return Err(FioError::NumericalInstability); },
            Some(v) => v,
        };
        let tot = match vec_sum(&newout) {
            None => { return Err(FioError::NumericalInstability); },
            Some(t) => t,
        };
        let delta = match tot.checked_sub(&sump) {
            None => { return Err(FioError::NumericalInstability); },
            Some(d) => d,
        };
        let rel = match delta.checked_div(&sump) {
            None => { return Err(FioError::NumericalInstability); },
            Some(d) => d,
        };
        proof {
            let ii = i as int;
            let nn = f.snrows() as nat;
            let ghost vc = sva_colsums(va@, nn);
            let ghost sv = svecmat(vc, gi@, nn);
            assert(is_inverse(sident_minus(szero_row(f@, ii)), gi@, nn));
            assert forall|q: int| 0 <= q < vc.len() implies pwf(#[trigger] vc[q]) by {
                assert(vc[q] == vsum(scol(va@, q)));
                va.lemma_col_wf(q);
                lemma_vsum_wf(scol(va@, q));
            }
            assert forall|q: int| 0 <= q < rats(vasums@).len() implies pwf(
                #[trigger] rats(vasums@)[q],
            ) by {
                assert(rats(vasums@)[q] == vasums@[q]@);
            }
            assert forall|q: int| 0 <= q < nn implies peq(#[trigger] rats(newout@)[q], sv[q]) by {
                assert(rats(newout@)[q] == newout@[q]@);
                assert(peq(newout@[q]@, dot(rats(vasums@), scol(gi@, q))));
                gi.lemma_col_wf(q);
                assert forall|z: int| 0 <= z < rats(vasums@).len() implies peq(
                    #[trigger] rats(vasums@)[z],
                    vc[z],
                ) by {
                    assert(rats(vasums@)[z] == vasums@[z]@);
                }
                lemma_dot_congr(rats(vasums@), vc, scol(gi@, q), scol(gi@, q));
                lemma_dot_wf(rats(vasums@), scol(gi@, q));
                lemma_peq_trans(newout@[q]@, dot(rats(vasums@), scol(gi@, q)), dot(vc, scol(gi@, q)));
                assert(sv[q] == dot(vc, scol(gi@, q)));
            }
            assert forall|q: int| 0 <= q < sv.len() implies pwf(#[trigger] sv[q]) by {
                assert(sv[q] == dot(vc, scol(gi@, q)));
                gi.lemma_col_wf(q);
                lemma_dot_wf(vc, scol(gi@, q));
            }
            assert forall|q: int| 0 <= q < rats(newout@).len() implies pwf(
                #[trigger] rats(newout@)[q],
            ) by {
                assert(rats(newout@)[q] == newout@[q]@);
            }
            lemma_vsum_congr(rats(newout@), sv);
            lemma_vsum_wf(rats(newout@));
            lemma_vsum_wf(sv);
            lemma_peq_trans(tot@, vsum(rats(newout@)), vsum(sv));
            lemma_padd_congr(tot@, vsum(sv), sump@, spt);
            lemma_pops_wf(tot@, sump@);
            lemma_pops_wf(vsum(sv), spt);
            lemma_peq_trans(delta@, psub(tot@, sump@), psub(vsum(sv), spt));
            lemma_pdiv_congr(delta@, psub(vsum(sv), spt), sump@, spt);
            lemma_pdiv_wf(delta@, sump@);
            lemma_pdiv_wf(psub(vsum(sv), spt), spt);
            lemma_peq_trans(rel@, pdiv(delta@, sump@), pdiv(psub(vsum(sv), spt), spt));
        }
        m.set(i, 0, delta);
        m.set(i, 1, rel);
        proof {
            let ii = i as int;
            let nn = f.snrows() as nat;
            let ghost vc = sva_colsums(va@, nn);
            let ghost sv = svecmat(vc, gi@, nn);
            assert(m@[ii][0] == delta@ && m@[ii][1] == rel@);
            assert(is_inverse(sident_minus(szero_row(f@, ii)), gi@, f@.len()) && peq(
                delta@,
                psub(vsum(svecmat(sva_colsums(va@, f@.len()), gi@, f@.len())), vsum(rats(p@))),
            ) && peq(
                rel@,
                pdiv(
                    psub(vsum(svecmat(sva_colsums(va@, f@.len()), gi@, f@.len())), vsum(rats(p@))),
                    vsum(rats(p@)),
                ),
            ));
            assert(forward_cell_ok(f@, va@, p@, m@[ii][0], m@[ii][1], ii));
        }
        i = i + 1;
    }
    Ok(m)
}

/// Total extraction: the elementwise exact sum of the backward and forward
/// results, absolute and relative columns independently. The contract is the
/// law itself: every reported cell is the sum of the two matching cells, and
/// the sum is owed whenever every entrywise sum fits the scalar range.
pub fn compute_extraction_total(b: &Matrix, f: &Matrix) -> (r: Result<Matrix, FioError>)
    requires
        b.wf(),
        f.wf(),
    ensures
        r matches Ok(m) ==> m.wf() && m.snrows() == b.snrows() && m.sncols() == b.sncols()
            && forall|i: int, j: int|
            0 <= i < b.snrows() && 0 <= j < b.sncols() ==> peq(
                #[trigger] m@[i][j],
                padd(b@[i][j], f@[i][j]),
            ),
        (r == Err::<Matrix, FioError>(FioError::DimensionMismatch)) <==> !(b.snrows()
            == f.snrows() && b.sncols() == f.sncols()),
        r is Err ==> r == Err::<Matrix, FioError>(FioError::DimensionMismatch) || r == Err::<
            Matrix,
            FioError,
        >(FioError::NumericalInstability),
        (b.snrows() == f.snrows() && b.sncols() == f.sncols() && (forall|i: int, j: int|
            0 <= i < b.snrows() && 0 <= j < b.sncols() ==> fits(
                #[trigger] padd(b@[i][j], f@[i][j]),
            ))) ==> r is Ok,
{
    if b.nrows() != f.nrows() || b.ncols() != f.ncols() {
        return Err(FioError::DimensionMismatch);
    }
    match b.mat_add(f) {
        None => Err(FioError::NumericalInstability),
        Some(m) => Ok(m),
    }
}

} // verus!
