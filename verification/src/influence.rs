//! Field of influence: the sensitivity of the whole Leontief inverse to a
//! small perturbation of each single coefficient.
//!
//! For every cell of the coefficient matrix, the perturbed system is
//! re-inverted with a certificate and the squared scaled differences are
//! accumulated. The contract exhibits the whole family of certified
//! inverses, one per perturbed cell, and states every entry of the result as
//! the exact sum of the squared difference quotients; since each perturbed
//! system has at most one inverse up to rational equality, this pins the
//! result down. Every entry is also nonnegative, being a sum of squares.

use vstd::prelude::*;
use crate::error::FioError;
use crate::matrix::Matrix;
use crate::matrix::is_inverse;
use crate::matrix::sident_minus;
use crate::matrix::sperturb;
use crate::matrix::mat_entries_wf;
use crate::matrix::entries_wf;
use crate::rational::Rat;
use crate::rational::peq;
use crate::rational::pwf;
use crate::rational::pzero;
use crate::rational::padd;
use crate::rational::psub;
use crate::rational::pdiv;
use crate::rational::pmul;
use crate::rational::pnonneg;
use crate::rational::pone;
use crate::rational::fits;
use crate::rational::lemma_peq_trans;
use crate::rational::lemma_padd_congr;
use crate::rational::lemma_pmul_congr;
use crate::rational::lemma_pdiv_congr;
use crate::rational::lemma_pdiv_wf;
use crate::rational::lemma_pops_wf;
use crate::rational::lemma_psquare_nonneg;
use crate::rational::lemma_padd_nonneg;
use crate::leontief::invert_ident_minus;

verus! {

/// The squared scaled difference at entry `(x, y)` between a perturbed
/// inverse `li` and the base inverse `l`, for perturbation size `e`.
pub open spec fn sinfluence_cell(
    li: Seq<Seq<(int, int)>>,
    l: Seq<Seq<(int, int)>>,
    e: (int, int),
    x: int,
    y: int,
) -> (int, int) {
    pmul(pdiv(psub(li[x][y], l[x][y]), e), pdiv(psub(li[x][y], l[x][y]), e))
}

/// Sum of the first `k` contributions of the family `f` at entry `(x, y)`.
pub open spec fn sinfluence_total(
    f: Map<int, Seq<Seq<(int, int)>>>,
    k: nat,
    l: Seq<Seq<(int, int)>>,
    e: (int, int),
    x: int,
    y: int,
) -> (int, int)
    decreases k,
{
    if k == 0 {
        pzero()
    } else {
        padd(
            sinfluence_total(f, (k - 1) as nat, l, e, x, y),
            sinfluence_cell(f[k as int - 1], l, e, x, y),
        )
    }
}

/// The result matrix `m` is the field of influence of `a` with base inverse
/// `l` and perturbation `e`: some family `f` of certified inverses, the
/// `k`-th inverting `I - a` with `e` added at cell `(k / n, k % n)`, has
/// every entry of `m` equal to the sum over the family of the squared scaled
/// differences at that entry.
pub open spec fn influence_ok(
    a: Seq<Seq<(int, int)>>,
    l: Seq<Seq<(int, int)>>,
    e: (int, int),
    m: Seq<Seq<(int, int)>>,
    n: nat,
) -> bool {
    exists|f: Map<int, Seq<Seq<(int, int)>>>|
        #![trigger f.dom()]
        (forall|k: int|
            0 <= k < n * n ==> is_inverse(
                sident_minus(sperturb(a, k / (n as int), k % (n as int), e)),
                #[trigger] f[k],
                n,
            )) && (forall|x: int, y: int|
            0 <= x < n && 0 <= y < n ==> peq(
                #[trigger] m[x][y],
                sinfluence_total(f, (n * n) as nat, l, e, x, y),
            ))
}

/// Families that agree below `k` give the same first-`k` total.
proof fn lemma_sinfluence_total_frame(
    f: Map<int, Seq<Seq<(int, int)>>>,
    f2: Map<int, Seq<Seq<(int, int)>>>,
    k: nat,
    l: Seq<Seq<(int, int)>>,
    e: (int, int),
    x: int,
    y: int,
)
    requires
        forall|q: int| 0 <= q < k ==> f[q] == f2[q],
    ensures
        sinfluence_total(f, k, l, e, x, y) == sinfluence_total(f2, k, l, e, x, y),
    decreases k,
{
    if k > 0 {
        lemma_sinfluence_total_frame(f, f2, (k - 1) as nat, l, e, x, y);
    }
}

/// A first-`k` total of well-formed contributions is well-formed and
/// nonnegative: it is a sum of squares.
proof fn lemma_sinfluence_total_nonneg(
    f: Map<int, Seq<Seq<(int, int)>>>,
    k: nat,
    l: Seq<Seq<(int, int)>>,
    e: (int, int),
    x: int,
    y: int,
)
    requires
        pwf(e),
        e.0 != 0,
        forall|q: int| 0 <= q < k ==> pwf(#[trigger] f[q][x][y]),
        pwf(l[x][y]),
    ensures
        pwf(sinfluence_total(f, k, l, e, x, y)),
        pnonneg(sinfluence_total(f, k, l, e, x, y)),
    decreases k,
{
    if k > 0 {
        lemma_sinfluence_total_nonneg(f, (k - 1) as nat, l, e, x, y);
        let d = psub(f[k as int - 1][x][y], l[x][y]);
        lemma_pops_wf(f[k as int - 1][x][y], l[x][y]);
        lemma_pdiv_wf(d, e);
        lemma_psquare_nonneg(pdiv(d, e));
        lemma_padd_nonneg(
            sinfluence_total(f, (k - 1) as nat, l, e, x, y),
            sinfluence_cell(f[k as int - 1], l, e, x, y),
        );
        lemma_pops_wf(
            sinfluence_total(f, (k - 1) as nat, l, e, x, y),
            sinfluence_cell(f[k as int - 1], l, e, x, y),
        );
    }
}

/// Field of influence of the coefficient matrix `a`, with base inverse `l`
/// and perturbation step `epsilon`.
///
/// Fails with `DimensionMismatch` when `a` is not square or `l` does not
/// share its shape; with `Degenerate`, before any factorization, when
/// `epsilon` is zero; with `SingularMatrix` when a perturbed system has no
/// usable pivot; with `NumericalInstability` when a candidate cannot be
/// certified or an exact value leaves the representable range. Every entry
/// of the result is a sum of squares, hence nonnegative.
pub fn compute_field_influence(a: &Matrix, l: &Matrix, epsilon: &Rat) -> (r: Result<
    Matrix,
    FioError,
>)
    requires
        a.wf(),
        l.wf(),
        epsilon.wf(),
    ensures
        r matches Ok(m) ==> m.wf() && m.snrows() == a.snrows() && m.sncols() == a.snrows()
            && influence_ok(a@, l@, epsilon@, m@, a.snrows() as nat) && forall|x: int, y: int|
            0 <= x < a.snrows() && 0 <= y < a.snrows() ==> pnonneg(#[trigger] m@[x][y]),
        (r == Err::<Matrix, FioError>(FioError::DimensionMismatch)) <==> !(a.snrows()
            == a.sncols() && l.snrows() == a.snrows() && l.sncols() == a.snrows()),
        (r == Err::<Matrix, FioError>(FioError::Degenerate)) <==> (a.snrows() == a.sncols()
            && l.snrows() == a.snrows() && l.sncols() == a.snrows() && epsilon@.0 == 0),
        r is Err ==> r == Err::<Matrix, FioError>(FioError::DimensionMismatch) || r == Err::<
            Matrix,
            FioError,
        >(FioError::Degenerate) || r == Err::<Matrix, FioError>(FioError::SingularMatrix) || r
            == Err::<Matrix, FioError>(FioError::NumericalInstability),
        a.snrows() == 1 ==> ((r == Err::<Matrix, FioError>(FioError::SingularMatrix)) ==> peq(
            padd(a@[0][0], epsilon@),
            pone(),
        )),
        (a.snrows() == 1 && a.sncols() == 1 && l.snrows() == 1 && l.sncols() == 1 && epsilon@.0
            != 0 && fits(padd(a@[0][0], epsilon@)) && peq(padd(a@[0][0], epsilon@), pone()))
            ==> r == Err::<Matrix, FioError>(FioError::SingularMatrix),
{
    let n: usize = a.nrows();
    if a.ncols() != n || l.nrows() != n || l.ncols() != n {
        return Err(FioError::DimensionMismatch);
    }
    if epsilon.is_zero() {
        return Err(FioError::Degenerate);
    }
    proof {
        a.lemma_size_bound();
    }
    let total_iters: usize = n * n;
    let mut acc = Matrix::zeros(n, n);
    let ghost e = epsilon@;
    let ghost mut fmap: Map<int, Seq<Seq<(int, int)>>> = Map::empty();
    let mut k: usize = 0;
    while k < total_iters
        invariant
            k <= total_iters,
            a.wf(),
            l.wf(),
            acc.wf(),
            epsilon.wf(),
            epsilon@ == e,
            e.0 != 0,
            n as int == a.snrows(),
            a.snrows() == a.sncols(),
            l.snrows() == a.snrows(),
            l.sncols() == a.snrows(),
            total_iters as int == a.snrows() * a.snrows(),
            acc.snrows() == n as int,
            acc.sncols() == n as int,
            forall|q: int|
                0 <= q < k as int ==> is_inverse(
                    sident_minus(sperturb(a@, q / (n as int), q % (n as int), e)),
                    #[trigger] fmap[q],
                    n as nat,
                ),
            forall|x: int, y: int|
                0 <= x < n as int && 0 <= y < n as int ==> peq(
                    #[trigger] acc@[x][y],
                    sinfluence_total(fmap, k as nat, l@, e, x, y),
                ),
        decreases total_iters - k,
    {
        proof {
            assert(n > 0) by (nonlinear_arith)
                requires k < total_iters, total_iters as int == (n as int) * (n as int), k >= 0;
        }
        let i: usize = k / n;
        let j: usize = k % n;
        proof {
            vstd::arithmetic::div_mod::lemma_multiply_divide_lt(
                k as int,
                n as int,
                n as int,
            );
        }
        // perturb one coefficient
        let mut a2 = a.duplicate();
        let base = a2.get(i, j);
        proof {
            if n == 1 {
                assert(total_iters as int == 1) by (nonlinear_arith)
                    requires
                        total_iters as int == (n as int) * (n as int),
                        n as int == 1;
                assert(k == 0 && i as int == 0 && j as int == 0);
            }
        }
        let bumped0 = base.checked_add(epsilon);
        proof {
            if n == 1 && fits(padd(a@[0][0], epsilon@)) {
                assert(base@ == a@[0][0]);
                assert(bumped0 is Some);
            }
        }
        let bumped = match bumped0 {
            None => { return Err(FioError::NumericalInstability); },
            Some(v) => v,
        };
        a2.set(i, j, bumped);
        proof {
            if n == 1 {
                // relate the stored perturbed entry to the spec pair
                let pp = padd(a@[0][0], epsilon@);
                assert(a2@[0][0] == bumped@);
                assert(peq(bumped@, pp));
                crate::rational::lemma_pops_wf(a@[0][0], epsilon@);
                let sm00 = sident_minus(a2@)[0][0];
                assert(sm00 == psub(pone(), a2@[0][0]));
                if peq(pp, pone()) {
                    // the perturbed single entry equals one, so I minus it is zero
                    assert(peq(bumped@, pone())) by {
                        crate::rational::lemma_peq_trans(bumped@, pp, pone());
                    }
                    assert(bumped@.0 * 1 == 1 * bumped@.1);
                    assert(sm00.0 == 1 * bumped@.1 - bumped@.0 * 1);
                    assert(sm00.0 == 0);
                }
                if sm00.0 == 0 {
                    // conversely a zero pivot means the perturbed entry is one
                    assert(1 * bumped@.1 - bumped@.0 * 1 == 0);
                    assert(peq(bumped@, pone()));
                    crate::rational::lemma_peq_trans(pone(), bumped@, pp);
                    assert(peq(pp, pone()));
                }
            }
        }
        let li = match invert_ident_minus(&a2) {
            Err(e) => {
                proof {
                    assert(e != FioError::DimensionMismatch);
                    assert(e == FioError::SingularMatrix || e == FioError::NumericalInstability);
                }
                return Err(e);
            },
            Ok(x) => x,
        };
        proof {
            if n == 1 && epsilon@.0 != 0 && fits(padd(a@[0][0], epsilon@)) && peq(
                padd(a@[0][0], epsilon@),
                pone(),
            ) {
                // a perturbed entry equal to one cannot have been inverted
                assert(sident_minus(a2@)[0][0].0 == 0);
                assert(false);
            }
            assert(!(n == 1 && epsilon@.0 != 0 && fits(padd(a@[0][0], epsilon@)) && peq(
                padd(a@[0][0], epsilon@),
                pone(),
            )));
        }
        let ghost pa = sperturb(a@, i as int, j as int, e);
        proof {
            // the perturbed matrix denotes sperturb(a, i, j, e) entrywise
            assert forall|x: int, y: int| 0 <= x < n as int && 0 <= y < n as int implies peq(
                #[trigger] a2@[x][y],
                pa[x][y],
            ) by {
                assert(pa[x][y] == (if x == i as int && y == j as int {
                    padd(a@[x][y], e)
                } else {
                    a@[x][y]
                }));
                if x == i as int && y == j as int {
                    assert(a2@[x][y] == bumped@);
                } else {
                    assert(a2@[x][y] == a@[x][y]);
                }
            }
            // transfer the inverse certificate to the spec-level perturbation
            assert forall|x: int| 0 <= x < n as int implies entries_wf(#[trigger] pa[x]) by {
                assert forall|y: int| 0 <= y < pa[x].len() implies pwf(#[trigger] pa[x][y]) by {
                    assert(entries_wf(a@[x]));
                    if x == i as int && y == j as int {
                        lemma_pops_wf(a@[x][y], e);
                        assert(pa[x][y] == padd(a@[x][y], e));
                    } else {
                        assert(pa[x][y] == a@[x][y]);
                    }
                }
            }
            assert(mat_entries_wf(pa));
            let nn = a.snrows() as nat;
            let ghost sm1 = sident_minus(a2@);
            let ghost sm2 = sident_minus(pa);
            assert forall|x: int| 0 <= x < nn as int implies entries_wf(#[trigger] sm2[x]) by {
                assert forall|y: int| 0 <= y < sm2[x].len() implies pwf(#[trigger] sm2[x][y]) by {
                    assert(entries_wf(pa[x]));
                    assert(pwf(pa[x][y]));
                    lemma_pops_wf(
                        if x == y {
                            crate::rational::pone()
                        } else {
                            pzero()
                        },
                        pa[x][y],
                    );
                    assert(sm2[x][y] == psub(
                        if x == y {
                            crate::rational::pone()
                        } else {
                            pzero()
                        },
                        pa[x][y],
                    ));
                }
            }
            assert(mat_entries_wf(sm2));
            assert forall|x: int| 0 <= x < nn as int implies entries_wf(#[trigger] sm1[x]) by {
                assert forall|y: int| 0 <= y < sm1[x].len() implies pwf(#[trigger] sm1[x][y]) by {
                    assert(entries_wf(a2@[x]));
                    assert(pwf(a2@[x][y]));
                    lemma_pops_wf(
                        if x == y {
                            crate::rational::pone()
                        } else {
                            pzero()
                        },
                        a2@[x][y],
                    );
                    assert(sm1[x][y] == psub(
                        if x == y {
                            crate::rational::pone()
                        } else {
                            pzero()
                        },
                        a2@[x][y],
                    ));
                }
            }
            assert(mat_entries_wf(sm1));
            assert forall|x: int, y: int| 0 <= x < nn as int && 0 <= y < nn as int implies peq(
                #[trigger] sm1[x][y],
                sm2[x][y],
            ) by {
                let d = if x == y {
                    crate::rational::pone()
                } else {
                    pzero()
                };
                assert(sm1[x][y] == psub(d, a2@[x][y]));
                assert(sm2[x][y] == psub(d, pa[x][y]));
                lemma_padd_congr(d, d, a2@[x][y], pa[x][y]);
            }
            assert(crate::matrix::mat_peq(sm1, sm2));
            crate::matrix::lemma_is_inverse_congr(sm1, sm2, li@, nn);
        }
        let ghost fmap0 = fmap;
        proof {
            fmap = fmap.insert(k as int, li@);
            assert((k as int) / (n as int) == i as int);
            assert((k as int) % (n as int) == j as int);
            assert(is_inverse(
                sident_minus(sperturb(a@, (k as int) / (n as int), (k as int) % (n as int), e)),
                fmap[k as int],
                n as nat,
            ));
        }
        // add this perturbation's squared scaled differences
        let mut c = Matrix::zeros(n, n);
        let mut x: usize = 0;
        while x < n
            invariant
                x <= n,
                a.wf(),
                l.wf(),
                c.wf(),
                li.wf(),
                epsilon.wf(),
                epsilon@ == e,
                e.0 != 0,
                !(n == 1 && epsilon@.0 != 0 && fits(padd(a@[0][0], epsilon@)) && peq(
                    padd(a@[0][0], epsilon@),
                    pone(),
                )),
                n as int == a.snrows(),
                a.snrows() == a.sncols(),
                l.snrows() == a.snrows(),
                l.sncols() == a.snrows(),
                li.snrows() == n as int,
                li.sncols() == n as int,
                c.snrows() == n as int,
                c.sncols() == n as int,
                forall|u: int, v: int|
                    0 <= u < x as int && 0 <= v < n as int ==> peq(
                        #[trigger] c@[u][v],
                        sinfluence_cell(li@, l@, e, u, v),
                    ),
            decreases n - x,
        {
            let mut y: usize = 0;
            while y < n
                invariant
                    x < n,
                    y <= n,
                    a.wf(),
                    l.wf(),
                    c.wf(),
                    li.wf(),
                    epsilon.wf(),
                    epsilon@ == e,
                    e.0 != 0,
                    !(n == 1 && epsilon@.0 != 0 && fits(padd(a@[0][0], epsilon@)) && peq(
                        padd(a@[0][0], epsilon@),
                        pone(),
                    )),
                    n as int == a.snrows(),
                    a.snrows() == a.sncols(),
                    l.snrows() == a.snrows(),
                    l.sncols() == a.snrows(),
                    li.snrows() == n as int,
                    li.sncols() == n as int,
                    c.snrows() == n as int,
                    c.sncols() == n as int,
                    forall|u: int, v: int|
                        0 <= u < x as int && 0 <= v < n as int ==> peq(
                            #[trigger] c@[u][v],
                            sinfluence_cell(li@, l@, e, u, v),
                        ),
                    forall|v: int|
                        0 <= v < y as int ==> peq(
                            #[trigger] c@[x as int][v],
                            sinfluence_cell(li@, l@, e, x as int, v),
                        ),
                decreases n - y,
            {
                let d = match li.get(x, y).checked_sub(&l.get(x, y)) {
                    None => { return Err(FioError::NumericalInstability); },
                    Some(v) => v,
                };
                let q = match d.checked_div(epsilon) {
                    None => { return Err(FioError::NumericalInstability); },
                    Some(v) => v,
                };
                let sq = match q.checked_mul(&q) {
                    None => { return Err(FioError::NumericalInstability); },
                    Some(v) => v,
                };
                proof {
                    let xi = x as int;
                    let yi = y as int;
                    let ghost sd = psub(li@[xi][yi], l@[xi][yi]);
                    let ghost sq_spec = sinfluence_cell(li@, l@, e, xi, yi);
                    lemma_pops_wf(li@[xi][yi], l@[xi][yi]);
                    lemma_pdiv_congr(d@, sd, epsilon@, e);
                    lemma_pdiv_wf(d@, epsilon@);
                    lemma_pdiv_wf(sd, e);
                    lemma_peq_trans(q@, pdiv(d@, epsilon@), pdiv(sd, e));
                    lemma_pmul_congr(q@, pdiv(sd, e), q@, pdiv(sd, e));
                    lemma_pops_wf(q@, q@);
                    lemma_peq_trans(sq@, pmul(q@, q@), sq_spec);
                }
                c.set(x, y, sq);
                y = y + 1;
            }
            x = x + 1;
        }
        let acc2 = match acc.mat_add(&c) {
            None => { return Err(FioError::NumericalInstability); },
            Some(m) => m,
        };
        proof {
            // the inserted entry does not disturb the first-`k` totals
            assert forall|u: int, v: int| 0 <= u < n as int && 0 <= v < n as int implies peq(
                #[trigger] acc2@[u][v],
                sinfluence_total(fmap, (k + 1) as nat, l@, e, u, v),
            ) by {
                assert(peq(acc2@[u][v], padd(acc@[u][v], c@[u][v])));
                assert(forall|q: int| 0 <= q < k as int ==> fmap0[q] == #[trigger] fmap[q]);
                lemma_sinfluence_total_frame(fmap0, fmap, k as nat, l@, e, u, v);
                assert(peq(acc@[u][v], sinfluence_total(fmap0, k as nat, l@, e, u, v)));
                assert(peq(acc@[u][v], sinfluence_total(fmap, k as nat, l@, e, u, v)));
                assert(sinfluence_total(fmap, (k + 1) as nat, l@, e, u, v) == padd(
                    sinfluence_total(fmap, k as nat, l@, e, u, v),
                    sinfluence_cell(fmap[k as int], l@, e, u, v),
                ));
                assert(fmap[k as int] == li@);
                lemma_padd_congr(
                    acc@[u][v],
                    sinfluence_total(fmap, k as nat, l@, e, u, v),
                    c@[u][v],
                    sinfluence_cell(li@, l@, e, u, v),
                );
                assert forall|q: int| 0 <= q < k as int implies pwf(#[trigger] fmap[q][u][v]) by {
                    assert(is_inverse(
                        sident_minus(sperturb(a@, q / (n as int), q % (n as int), e)),
                        fmap[q],
                        n as nat,
                    ));
                    assert(mat_entries_wf(fmap[q]));
                    assert(entries_wf(fmap[q][u]));
                }
                lemma_sinfluence_total_nonneg(fmap, k as nat, l@, e, u, v);
                lemma_pops_wf(acc@[u][v], c@[u][v]);
                lemma_peq_trans(
                    acc2@[u][v],
                    padd(acc@[u][v], c@[u][v]),
                    sinfluence_total(fmap, (k + 1) as nat, l@, e, u, v),
                );
            }
        }
        acc = acc2;
        k = k + 1;
    }
    proof {
        // the loop family witnesses the contract, and entries are sums of squares
        assert forall|x: int, y: int| 0 <= x < a.snrows() && 0 <= y < a.snrows() implies pnonneg(
            #[trigger] acc@[x][y],
        ) by {
            assert forall|q: int| 0 <= q < total_iters as int implies pwf(
                #[trigger] fmap[q][x][y],
            ) by {
                assert(is_inverse(
                    sident_minus(sperturb(a@, q / (n as int), q % (n as int), e)),
                    fmap[q],
                    n as nat,
                ));
                assert(mat_entries_wf(fmap[q]));
                assert(entries_wf(fmap[q][x]));
            }
            lemma_sinfluence_total_nonneg(fmap, total_iters as nat, l@, e, x, y);
            assert(peq(acc@[x][y], sinfluence_total(fmap, total_iters as nat, l@, e, x, y)));
            crate::rational::lemma_peq_nonneg(
                acc@[x][y],
                sinfluence_total(fmap, total_iters as nat, l@, e, x, y),
            );
        }
        assert((forall|q: int|
            0 <= q < (a.snrows() as nat) * (a.snrows() as nat) ==> is_inverse(
                sident_minus(sperturb(a@, q / (a.snrows() as nat as int), q % (a.snrows() as nat as int), e)),
                #[trigger] fmap[q],
                a.snrows() as nat,
            )) && (forall|x: int, y: int|
            0 <= x < a.snrows() as nat && 0 <= y < a.snrows() as nat ==> peq(
                #[trigger] acc@[x][y],
                sinfluence_total(fmap, ((a.snrows() as nat) * (a.snrows() as nat)) as nat, l@, e, x, y),
            )));
        assert(fmap.dom() =~= fmap.dom());
        assert(influence_ok(a@, l@, epsilon@, acc@, a.snrows() as nat));
        if a.snrows() == 1 && epsilon@.0 != 0 && fits(padd(a@[0][0], epsilon@)) && peq(
            padd(a@[0][0], epsilon@),
            pone(),
        ) {
            // the certified family would have to invert the perturbed system,
            // but the hypothesis makes that system's single entry zero
            let pp = padd(a@[0][0], e);
            assert(total_iters as int == 1) by (nonlinear_arith)
                requires
                    total_iters as int == (n as int) * (n as int),
                    n as int == 1;
            assert(is_inverse(
                sident_minus(sperturb(a@, 0int / (n as int), 0int % (n as int), e)),
                fmap[0],
                n as nat,
            ));
            assert(0int / 1int == 0 && 0int % 1int == 0);
            let sp = sperturb(a@, 0, 0, e);
            assert(sp.len() == 1 && sp[0].len() == 1);
            assert(sp[0][0] == padd(a@[0][0], e));
            let sm = sident_minus(sp);
            assert(sm[0][0] == psub(pone(), pp));
            assert(pp.0 * 1 == 1 * pp.1);
            assert(sm[0][0].0 == 1 * pp.1 - pp.0 * 1);
            assert(sm[0][0].0 == 0);
            let xx = fmap[0];
            assert(crate::matrix::mat_peq(crate::matrix::smat_mul(sm, xx, 1), crate::matrix::sident(1)));
            assert(crate::matrix::smat_mul(sm, xx, 1)[0][0] == crate::matrix::dot(
                crate::matrix::srow(sm, 0),
                crate::matrix::scol(xx, 0),
            ));
            let ra = crate::matrix::srow(sm, 0);
            let ca = crate::matrix::scol(xx, 0);
            assert(ra.len() == 1 && ca.len() == 1);
            assert(ra.drop_last().len() == 0 && ca.drop_last().len() == 0);
            assert(crate::matrix::dot(ra.drop_last(), ca.drop_last()) == pzero());
            assert(crate::matrix::dot(ra, ca) == padd(pzero(), pmul(sm[0][0], xx[0][0])));
            assert(crate::matrix::sident(1)[0][0] == pone());
            assert(peq(crate::matrix::dot(ra, ca), pone()));
            let pm = pmul(sm[0][0], xx[0][0]);
            assert(pm.0 == 0) by (nonlinear_arith)
                requires pm.0 == sm[0][0].0 * xx[0][0].0, sm[0][0].0 == 0;
            let en = padd(pzero(), pm);
            assert(en.0 == 0 * pm.1 + pm.0 * 1 && en.1 == 1 * pm.1);
            assert(en.0 == 0) by (nonlinear_arith)
                requires en.0 == 0 * pm.1 + pm.0 * 1, pm.0 == 0;
            assert(crate::matrix::mat_entries_wf(xx));
            assert(crate::matrix::entries_wf(xx[0]));
            assert(pwf(xx[0][0]));
            crate::rational::lemma_pops_wf(a@[0][0], e);
            crate::rational::lemma_pops_wf(pone(), pp);
            assert(pwf(sm[0][0]));
            assert(en.1 > 0) by (nonlinear_arith)
                requires
                    en.1 == 1 * (sm[0][0].1 * xx[0][0].1),
                    sm[0][0].1 > 0,
                    xx[0][0].1 > 0;
            assert(peq(en, pone()) == (en.0 * 1 == 1 * en.1));
            assert(false);
        }
    }
    Ok(acc)
}

} // verus!
