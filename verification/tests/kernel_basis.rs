use sheaf_agents::kernel::{kernel_basis, KernelEntry};
use sheaf_agents::matrix::DenseMatrix;

fn value(e: &KernelEntry<f64>) -> f64 {
    match e {
        KernelEntry::Zero => 0.0,
        KernelEntry::One => 1.0,
        KernelEntry::Negated(x) => -x,
    }
}

#[test]
fn kernel_of_full_rank_is_empty() {
    let w = DenseMatrix::identity(3, 0.0, 1.0);
    let b = kernel_basis(&w, &vec![0, 1, 2]);
    assert_eq!(b.nrows(), 3);
    assert_eq!(b.ncols(), 0);
}

#[test]
fn kernel_of_zero_matrix_is_everything() {
    let w = DenseMatrix::filled(2, 3, 0.0);
    let b = kernel_basis(&w, &vec![]);
    assert_eq!(b.nrows(), 3);
    assert_eq!(b.ncols(), 3);
    for i in 0..3 {
        for j in 0..3 {
            assert_eq!(b.get(i, j), if i == j { KernelEntry::One } else { KernelEntry::Zero });
        }
    }
}

#[test]
fn kernel_of_rank_one_matrix() {
    // [1 2 3; 2 4 6] reduces to [1 2 3; 0 0 0] with its pivot in column 0.
    let w = DenseMatrix::from_rows(3, vec![vec![1.0, 2.0, 3.0], vec![0.0, 0.0, 0.0]]).unwrap();
    let b = kernel_basis(&w, &vec![0]);
    assert_eq!(b.nrows(), 3);
    assert_eq!(b.ncols(), 2);
    assert_eq!(b.get(0, 0), KernelEntry::Negated(2.0));
    assert_eq!(b.get(1, 0), KernelEntry::One);
    assert_eq!(b.get(2, 0), KernelEntry::Zero);
    assert_eq!(b.get(0, 1), KernelEntry::Negated(3.0));
    assert_eq!(b.get(1, 1), KernelEntry::Zero);
    assert_eq!(b.get(2, 1), KernelEntry::One);
    // Each basis vector is in the kernel of the original matrix.
    let original = [[1.0, 2.0, 3.0], [2.0, 4.0, 6.0]];
    for col in 0..2 {
        for row in original.iter() {
            let dot: f64 = (0..3).map(|k| row[k] * value(&b.get(k, col))).sum();
            assert!(dot.abs() < 1e-10);
        }
    }
}

#[test]
fn kernel_with_pivots_apart() {
    // [1 a 0 b; 0 0 1 c] with pivots in columns 0 and 2.
    let w = DenseMatrix::from_rows(
        4,
        vec![vec![1.0, 5.0, 0.0, 7.0], vec![0.0, 0.0, 1.0, 11.0]],
    )
    .unwrap();
    let b = kernel_basis(&w, &vec![0, 2]);
    assert_eq!((b.nrows(), b.ncols()), (4, 2));
    let col0: Vec<f64> = (0..4).map(|r| value(&b.get(r, 0))).collect();
    let col1: Vec<f64> = (0..4).map(|r| value(&b.get(r, 1))).collect();
    assert_eq!(col0, vec![-5.0, 1.0, -0.0, 0.0]);
    assert_eq!(col1, vec![-7.0, 0.0, -11.0, 1.0]);
}
