use fio::FioError;
use fio::Matrix;
use fio::Rat;
use fio::compute_extraction_backward;
use fio::compute_extraction_forward;
use fio::compute_extraction_total;

fn rat(n: i64, d: i64) -> Rat {
    Rat::new(n, d).unwrap()
}

fn ints(vals: &[i64]) -> Vec<Rat> {
    vals.iter().map(|&v| rat(v, 1)).collect()
}

#[test]
fn backward_extraction_single_sector() {
    // A = [[0]]: zeroing the only column changes nothing, L' = I, so the new
    // output is the final-demand row sum 10 and the delta is 10 - 5 = 5.
    let a = Matrix::from_rats(1, 1, vec![Rat::zero()]).unwrap();
    let fd = Matrix::from_rats(1, 1, ints(&[10])).unwrap();
    let p = ints(&[5]);
    let m = compute_extraction_backward(&a, &fd, &p).unwrap();
    assert_eq!(m.nrows(), 1);
    assert_eq!(m.ncols(), 2);
    assert!(m.get(0, 0).equals(&rat(5, 1)));
    assert!(m.get(0, 1).equals(&rat(1, 1)));
}

#[test]
fn forward_extraction_single_sector() {
    // F = [[0]]: G' = I, new output is the value-added column sum 7, and the
    // delta is 7 - 5 = 2, or 2/5 of total production.
    let f = Matrix::from_rats(1, 1, vec![Rat::zero()]).unwrap();
    let va = Matrix::from_rats(1, 1, ints(&[7])).unwrap();
    let p = ints(&[5]);
    let m = compute_extraction_forward(&f, &va, &p).unwrap();
    assert!(m.get(0, 0).equals(&rat(2, 1)));
    assert!(m.get(0, 1).equals(&rat(2, 5)));
}

#[test]
fn backward_extraction_two_sectors() {
    // A = [[0, 1/2], [0, 0]] column-major [0,0, 1/2,0]; FD row sums [4, 2];
    // p = [10, 2]. Zeroing column 0 leaves A unchanged in column 1, so
    // L'_0 = inverse of I - [[0,1/2],[0,0]] = [[1,1/2],[0,1]]:
    // new output = [4 + 1, 2] summing to 7, delta = 7 - 12 = -5.
    // Zeroing column 1 gives L'_1 = I: new output sums to 6, delta = -6.
    let a = Matrix::from_rats(2, 2, vec![Rat::zero(), Rat::zero(), rat(1, 2), Rat::zero()])
        .unwrap();
    let fd = Matrix::from_rats(2, 1, ints(&[4, 2])).unwrap();
    let p = ints(&[10, 2]);
    let m = compute_extraction_backward(&a, &fd, &p).unwrap();
    assert!(m.get(0, 0).equals(&rat(-5, 1)));
    assert!(m.get(0, 1).equals(&rat(-5, 12)));
    assert!(m.get(1, 0).equals(&rat(-6, 1)));
    assert!(m.get(1, 1).equals(&rat(-6, 12)));
}

#[test]
fn extraction_zero_production_is_degenerate_before_any_factorization() {
    let a = Matrix::from_rats(1, 1, vec![Rat::zero()]).unwrap();
    let fd = Matrix::from_rats(1, 1, ints(&[10])).unwrap();
    let p = ints(&[0]);
    assert!(matches!(
        compute_extraction_backward(&a, &fd, &p),
        Err(FioError::Degenerate)
    ));
    assert!(matches!(
        compute_extraction_forward(&a, &fd, &p),
        Err(FioError::Degenerate)
    ));
}

#[test]
fn extraction_singular_sector_is_reported_as_singular() {
    // A = [[0,0],[0,1]]: zeroing column 0 leaves I - A' = [[1,0],[0,0]],
    // which is singular, so the factorization failure kind surfaces.
    let a = Matrix::from_rats(
        2,
        2,
        vec![Rat::zero(), Rat::zero(), Rat::zero(), rat(1, 1)],
    )
    .unwrap();
    let fd = Matrix::from_rats(2, 1, ints(&[1, 1])).unwrap();
    let p = ints(&[1, 1]);
    assert!(matches!(
        compute_extraction_backward(&a, &fd, &p),
        Err(FioError::SingularMatrix)
    ));
}

#[test]
fn extraction_dimension_mismatch() {
    let a = Matrix::from_rats(1, 1, vec![Rat::zero()]).unwrap();
    let fd = Matrix::from_rats(2, 1, ints(&[10, 1])).unwrap();
    let p = ints(&[5]);
    assert!(matches!(
        compute_extraction_backward(&a, &fd, &p),
        Err(FioError::DimensionMismatch)
    ));
}

#[test]
fn total_extraction_is_elementwise_sum() {
    let b = Matrix::from_rats(2, 2, vec![rat(1, 2), rat(3, 1), rat(1, 3), rat(-1, 1)]).unwrap();
    let f = Matrix::from_rats(2, 2, vec![rat(1, 3), rat(-1, 1), rat(1, 6), rat(5, 1)]).unwrap();
    let t = compute_extraction_total(&b, &f).unwrap();
    assert!(t.get(0, 0).equals(&rat(5, 6)));
    assert!(t.get(1, 0).equals(&rat(2, 1)));
    assert!(t.get(0, 1).equals(&rat(1, 2)));
    assert!(t.get(1, 1).equals(&rat(4, 1)));
}

#[test]
fn total_extraction_rejects_mismatched_shapes() {
    let b = Matrix::from_rats(2, 2, ints(&[1, 2, 3, 4])).unwrap();
    let f = Matrix::from_rats(1, 2, ints(&[1, 2])).unwrap();
    assert!(matches!(
        compute_extraction_total(&b, &f),
        Err(FioError::DimensionMismatch)
    ));
}
