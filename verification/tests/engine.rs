use fio::FioError;
use fio::Matrix;
use fio::Rat;
use fio::compute_allocation_coeff;
use fio::compute_ghosh_inverse;
use fio::compute_leontief_inverse;
use fio::compute_tech_coeff;
use fio::mat_inverse;

fn rat(n: i64, d: i64) -> Rat {
    Rat::new(n, d).unwrap()
}

fn ints(vals: &[i64]) -> Vec<Rat> {
    vals.iter().map(|&v| rat(v, 1)).collect()
}

/// The three-sector transactions table, column-major: columns are
/// [1,2,3], [4,5,6], [7,8,9].
fn three_sector_t() -> Matrix {
    Matrix::from_rats(3, 3, ints(&[1, 2, 3, 4, 5, 6, 7, 8, 9])).unwrap()
}

#[test]
fn tech_coeff_three_sectors() {
    let t = three_sector_t();
    let p = ints(&[100, 200, 300]);
    let a = compute_tech_coeff(&t, &p).unwrap();
    assert!(a.get(0, 0).equals(&rat(1, 100)));
    assert!(a.get(1, 0).equals(&rat(2, 100)));
    assert!(a.get(0, 1).equals(&rat(4, 200)));
    assert!(a.get(2, 2).equals(&rat(9, 300)));
}

#[test]
fn allocation_coeff_three_sectors() {
    let t = three_sector_t();
    let p = ints(&[100, 200, 300]);
    let f = compute_allocation_coeff(&t, &p).unwrap();
    assert!(f.get(0, 0).equals(&rat(1, 100)));
    assert!(f.get(0, 1).equals(&rat(4, 100)));
    assert!(f.get(1, 0).equals(&rat(2, 200)));
    assert!(f.get(2, 2).equals(&rat(9, 300)));
}

#[test]
fn leontief_inverse_three_sectors_is_exact_inverse() {
    let t = three_sector_t();
    let p = ints(&[100, 200, 300]);
    let a = compute_tech_coeff(&t, &p).unwrap();
    let l = compute_leontief_inverse(&a).unwrap();
    // (I - A) * L and L * (I - A) are exactly the identity
    let im = a.ident_minus().unwrap();
    assert!(im.mat_mul(&l).unwrap().equals_identity());
    assert!(l.mat_mul(&im).unwrap().equals_identity());
}

#[test]
fn ghosh_inverse_three_sectors_is_exact_inverse() {
    let t = three_sector_t();
    let p = ints(&[100, 200, 300]);
    let f = compute_allocation_coeff(&t, &p).unwrap();
    let g = compute_ghosh_inverse(&f).unwrap();
    let im = f.ident_minus().unwrap();
    assert!(im.mat_mul(&g).unwrap().equals_identity());
    assert!(g.mat_mul(&im).unwrap().equals_identity());
}

#[test]
fn single_sector_closed_form() {
    // A = [[1/2]] gives L = [[2]] exactly
    let a = Matrix::from_rats(1, 1, vec![rat(1, 2)]).unwrap();
    let l = compute_leontief_inverse(&a).unwrap();
    assert!(l.get(0, 0).equals(&rat(2, 1)));
}

#[test]
fn tech_coeff_dimension_mismatch() {
    let t = three_sector_t();
    let p = ints(&[100, 200]);
    assert!(matches!(
        compute_tech_coeff(&t, &p),
        Err(FioError::DimensionMismatch)
    ));
    let rect = Matrix::from_rats(2, 3, ints(&[1, 2, 3, 4, 5, 6])).unwrap();
    assert!(matches!(
        compute_tech_coeff(&rect, &ints(&[1, 2, 3])),
        Err(FioError::DimensionMismatch)
    ));
}

#[test]
fn tech_coeff_zero_production_is_degenerate() {
    let t = three_sector_t();
    let p = ints(&[100, 0, 300]);
    assert!(matches!(
        compute_tech_coeff(&t, &p),
        Err(FioError::Degenerate)
    ));
    assert!(matches!(
        compute_allocation_coeff(&t, &p),
        Err(FioError::Degenerate)
    ));
}

#[test]
fn tech_coeff_overflow_is_numerical_instability() {
    let t = Matrix::from_rats(1, 1, vec![rat(1 << 62, 1)]).unwrap();
    let p = vec![rat(1, 1 << 62)];
    assert!(matches!(
        compute_tech_coeff(&t, &p),
        Err(FioError::NumericalInstability)
    ));
}

#[test]
fn singular_matrix_is_detected() {
    // A = [[1]] makes I - A = [[0]], which has no inverse
    let a = Matrix::from_rats(1, 1, vec![rat(1, 1)]).unwrap();
    assert!(matches!(
        compute_leontief_inverse(&a),
        Err(FioError::SingularMatrix)
    ));
    // a 2x2 singular Leontief matrix: I - A with two equal rows
    let a2 = Matrix::from_rats(2, 2, vec![rat(1, 2), rat(1, 2), rat(-1, 2), rat(3, 2)]).unwrap();
    assert!(matches!(
        compute_leontief_inverse(&a2),
        Err(FioError::SingularMatrix)
    ));
}

#[test]
fn leontief_inverse_rejects_rectangular_input() {
    let rect = Matrix::from_rats(2, 3, ints(&[1, 2, 3, 4, 5, 6])).unwrap();
    assert!(matches!(
        compute_leontief_inverse(&rect),
        Err(FioError::DimensionMismatch)
    ));
}

#[test]
fn mat_inverse_certifies_both_products() {
    let m = Matrix::from_rats(2, 2, vec![rat(2, 1), rat(1, 1), rat(1, 1), rat(1, 1)]).unwrap();
    let x = mat_inverse(&m).unwrap();
    assert!(m.mat_mul(&x).unwrap().equals_identity());
    assert!(x.mat_mul(&m).unwrap().equals_identity());
    // inverse of [[2,1],[1,1]] is [[1,-1],[-1,2]]
    assert!(x.get(0, 0).equals(&rat(1, 1)));
    assert!(x.get(0, 1).equals(&rat(-1, 1)));
    assert!(x.get(1, 0).equals(&rat(-1, 1)));
    assert!(x.get(1, 1).equals(&rat(2, 1)));
}

#[test]
fn from_rats_checks_length() {
    assert!(Matrix::from_rats(2, 2, ints(&[1, 2, 3])).is_none());
    assert!(Matrix::from_rats(2, 2, ints(&[1, 2, 3, 4])).is_some());
}

#[test]
fn error_descriptions_name_the_kind() {
    assert_eq!(FioError::DimensionMismatch.describe(), "dimension mismatch");
    assert_eq!(FioError::Degenerate.describe(), "degenerate divisor");
    assert_eq!(FioError::SingularMatrix.describe(), "singular matrix");
    assert_eq!(
        FioError::NumericalInstability.describe(),
        "numerical instability"
    );
}
