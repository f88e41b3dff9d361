use fio::FioError;
use fio::Matrix;
use fio::Rat;
use fio::compute_field_influence;
use fio::compute_leontief_inverse;

fn rat(n: i64, d: i64) -> Rat {
    Rat::new(n, d).unwrap()
}

fn as_f64(r: &Rat) -> f64 {
    r.numerator() as f64 / r.denominator() as f64
}

#[test]
fn influence_single_sector_closed_form() {
    // A = [[1/2]], L = [[2]], eps = 1/10: the perturbed inverse is
    // 1 / (1 - 3/5) = 5/2, the difference quotient (5/2 - 2) / (1/10) = 5,
    // and the field of influence its square, 25.
    let a = Matrix::from_rats(1, 1, vec![rat(1, 2)]).unwrap();
    let l = compute_leontief_inverse(&a).unwrap();
    let m = compute_field_influence(&a, &l, &rat(1, 10)).unwrap();
    assert!(m.get(0, 0).equals(&rat(25, 1)));
}

#[test]
fn entries_are_nonnegative() {
    let a = Matrix::from_rats(
        2,
        2,
        vec![rat(1, 4), rat(1, 8), rat(1, 8), rat(1, 4)],
    )
    .unwrap();
    let l = compute_leontief_inverse(&a).unwrap();
    let m = compute_field_influence(&a, &l, &rat(1, 10)).unwrap();
    for i in 0..2 {
        for j in 0..2 {
            assert!(m.get(i, j).is_nonneg());
        }
    }
}

#[test]
fn shrinks_toward_the_analytic_bound_as_epsilon_decreases() {
    // For A = [[1/2]] the derivative of (1 - a)^-1 at a = 1/2 is L^2 = 4,
    // so the field of influence converges to 16 as epsilon shrinks.
    let a = Matrix::from_rats(1, 1, vec![rat(1, 2)]).unwrap();
    let l = compute_leontief_inverse(&a).unwrap();
    let coarse = compute_field_influence(&a, &l, &rat(1, 10)).unwrap();
    let fine = compute_field_influence(&a, &l, &rat(1, 100)).unwrap();
    let finest = compute_field_influence(&a, &l, &rat(1, 1000)).unwrap();
    let bound = 16.0_f64;
    let e1 = (as_f64(&coarse.get(0, 0)) - bound).abs();
    let e2 = (as_f64(&fine.get(0, 0)) - bound).abs();
    let e3 = (as_f64(&finest.get(0, 0)) - bound).abs();
    assert!(e2 < e1);
    assert!(e3 < e2);
}

#[test]
fn perturbation_reaching_one_is_singular() {
    // A = [[1/2]] with eps = 1/2: the perturbed entry is 1, so I minus it is
    // the zero matrix and the factorization failure kind is owed.
    let a = Matrix::from_rats(1, 1, vec![rat(1, 2)]).unwrap();
    let l = compute_leontief_inverse(&a).unwrap();
    assert!(matches!(
        compute_field_influence(&a, &l, &rat(1, 2)),
        Err(FioError::SingularMatrix)
    ));
}

#[test]
fn zero_epsilon_is_degenerate() {
    let a = Matrix::from_rats(1, 1, vec![rat(1, 2)]).unwrap();
    let l = compute_leontief_inverse(&a).unwrap();
    assert!(matches!(
        compute_field_influence(&a, &l, &Rat::zero()),
        Err(FioError::Degenerate)
    ));
}

#[test]
fn mismatched_shapes_are_rejected() {
    let a = Matrix::from_rats(1, 1, vec![rat(1, 2)]).unwrap();
    let l = Matrix::from_rats(2, 2, vec![rat(1, 1), rat(0, 1), rat(0, 1), rat(1, 1)]).unwrap();
    assert!(matches!(
        compute_field_influence(&a, &l, &rat(1, 10)),
        Err(FioError::DimensionMismatch)
    ));
}
