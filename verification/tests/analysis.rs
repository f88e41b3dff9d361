use fio::FioError;
use fio::Matrix;
use fio::Rat;
use fio::compute_col_average;
use fio::compute_leontief_inverse_average;
use fio::compute_multiplier_output;
use fio::compute_multiplier_output_direct;
use fio::compute_multiplier_output_indirect;
use fio::compute_multiplier_value_added;
use fio::compute_multiplier_value_added_indirect;
use fio::compute_generator_value_added;
use fio::compute_power_dispersion;
use fio::compute_power_dispersion_cv_squared;
use fio::compute_requirements_value_added;
use fio::compute_row_average;
use fio::compute_sensitivity_dispersion;
use fio::compute_sensitivity_dispersion_cv_squared;

fn rat(n: i64, d: i64) -> Rat {
    Rat::new(n, d).unwrap()
}

fn ints(vals: &[i64]) -> Vec<Rat> {
    vals.iter().map(|&v| rat(v, 1)).collect()
}

/// L = [[2,0],[0,3]] in column-major order.
fn diag_l() -> Matrix {
    Matrix::from_rats(2, 2, ints(&[2, 0, 0, 3])).unwrap()
}

#[test]
fn matrix_average() {
    let avg = compute_leontief_inverse_average(&diag_l()).unwrap();
    assert!(avg.equals(&rat(5, 4)));
}

#[test]
fn average_of_empty_matrix_is_degenerate() {
    let empty = Matrix::from_rats(0, 0, vec![]).unwrap();
    assert!(matches!(
        compute_leontief_inverse_average(&empty),
        Err(FioError::Degenerate)
    ));
}

#[test]
fn row_and_col_averages() {
    let l = diag_l();
    let r = compute_row_average(&l).unwrap();
    assert!(r[0].equals(&rat(1, 1)));
    assert!(r[1].equals(&rat(3, 2)));
    let c = compute_col_average(&l).unwrap();
    assert!(c[0].equals(&rat(1, 1)));
    assert!(c[1].equals(&rat(3, 2)));
}

#[test]
fn dispersion_linkages() {
    let l = diag_l();
    // row/column averages divided by the matrix average 5/4
    let s = compute_sensitivity_dispersion(&l).unwrap();
    assert!(s[0].equals(&rat(4, 5)));
    assert!(s[1].equals(&rat(6, 5)));
    let p = compute_power_dispersion(&l).unwrap();
    assert!(p[0].equals(&rat(4, 5)));
    assert!(p[1].equals(&rat(6, 5)));
}

#[test]
fn dispersion_cv_squared_closed_form() {
    // column 0: average 1, deviations +-1, sum of squares 2, over n-1 = 1,
    // over average^2 = 1: cv^2 = 2. column 1: average 3/2, deviations -+3/2,
    // sum of squares 9/2, over 1, over 9/4: cv^2 = 2.
    let l = diag_l();
    let pcv = compute_power_dispersion_cv_squared(&l).unwrap();
    assert!(pcv[0].equals(&rat(2, 1)));
    assert!(pcv[1].equals(&rat(2, 1)));
    let scv = compute_sensitivity_dispersion_cv_squared(&l).unwrap();
    assert!(scv[0].equals(&rat(2, 1)));
    assert!(scv[1].equals(&rat(2, 1)));
}

#[test]
fn dispersion_cv_squared_constant_matrix_is_zero() {
    // every column and row of the all-ones matrix is constant, so every
    // squared deviation, and with it each squared coefficient, is exactly 0
    let l = Matrix::from_rats(2, 2, ints(&[1, 1, 1, 1])).unwrap();
    let pcv = compute_power_dispersion_cv_squared(&l).unwrap();
    assert!(pcv[0].is_zero());
    assert!(pcv[1].is_zero());
    let scv = compute_sensitivity_dispersion_cv_squared(&l).unwrap();
    assert!(scv[0].is_zero());
    assert!(scv[1].is_zero());
}

#[test]
fn dispersion_cv_squared_single_sector_is_degenerate() {
    let l = Matrix::from_rats(1, 1, vec![rat(2, 1)]).unwrap();
    assert!(matches!(
        compute_power_dispersion_cv_squared(&l),
        Err(FioError::Degenerate)
    ));
    assert!(matches!(
        compute_sensitivity_dispersion_cv_squared(&l),
        Err(FioError::Degenerate)
    ));
}

#[test]
fn output_multipliers_scenario() {
    // L = [[2,0],[0,3]], A = 0: total [2,3], direct [0,0], indirect [2,3]
    let l = diag_l();
    let a = Matrix::from_rats(2, 2, ints(&[0, 0, 0, 0])).unwrap();
    let total = compute_multiplier_output(&l).unwrap();
    assert!(total[0].equals(&rat(2, 1)));
    assert!(total[1].equals(&rat(3, 1)));
    let direct = compute_multiplier_output_direct(&a).unwrap();
    assert!(direct[0].is_zero());
    assert!(direct[1].is_zero());
    let indirect = compute_multiplier_output_indirect(&a, &l).unwrap();
    assert!(indirect[0].equals(&rat(2, 1)));
    assert!(indirect[1].equals(&rat(3, 1)));
}

#[test]
fn output_multiplier_decomposition_is_exact() {
    // a non-trivial A: indirect must equal total - direct entry by entry
    let l = Matrix::from_rats(2, 2, ints(&[2, 1, 1, 3])).unwrap();
    let a = Matrix::from_rats(
        2,
        2,
        vec![rat(1, 4), rat(1, 8), rat(1, 2), rat(1, 3)],
    )
    .unwrap();
    let total = compute_multiplier_output(&l).unwrap();
    let direct = compute_multiplier_output_direct(&a).unwrap();
    let indirect = compute_multiplier_output_indirect(&a, &l).unwrap();
    for j in 0..2 {
        let expect = total[j].checked_sub(&direct[j]).unwrap();
        assert!(indirect[j].equals(&expect));
    }
}

#[test]
fn requirements_and_satellite_multipliers() {
    let va = ints(&[100, 200, 300]);
    let p = ints(&[1000, 2000, 3000]);
    let reqs = compute_requirements_value_added(&va, &p).unwrap();
    for r in &reqs {
        assert!(r.equals(&rat(1, 10)));
    }
    let zero_p = ints(&[1000, 0, 3000]);
    assert!(matches!(
        compute_requirements_value_added(&va, &zero_p),
        Err(FioError::Degenerate)
    ));
    assert!(matches!(
        compute_requirements_value_added(&va, &ints(&[1, 2])),
        Err(FioError::DimensionMismatch)
    ));
}

#[test]
fn generator_and_value_added_multipliers() {
    // reqs = [1/2, 1/3] against L = [[2,0],[0,3]]: generator is the identity
    let l = diag_l();
    let va = ints(&[1, 1]);
    let p = ints(&[2, 3]);
    let reqs = compute_requirements_value_added(&va, &p).unwrap();
    let g = compute_generator_value_added(&reqs, &l).unwrap();
    assert!(g.get(0, 0).equals(&rat(1, 1)));
    assert!(g.get(0, 1).is_zero());
    assert!(g.get(1, 0).is_zero());
    assert!(g.get(1, 1).equals(&rat(1, 1)));
    let total = compute_multiplier_value_added(&reqs, &l).unwrap();
    assert!(total[0].equals(&rat(1, 1)));
    assert!(total[1].equals(&rat(1, 1)));
    let indirect = compute_multiplier_value_added_indirect(&va, &p, &l).unwrap();
    assert!(indirect[0].equals(&rat(1, 2)));
    assert!(indirect[1].equals(&rat(2, 3)));
}
