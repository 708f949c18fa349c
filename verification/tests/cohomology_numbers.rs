use sheaf_agents::coboundary::Term;
use sheaf_agents::cohomology::{can_agree as agree_on, Cohomology};
use sheaf_agents::echelon::{null_space, reduce_to_echelon};
use sheaf_agents::kernel::KernelEntry;
use sheaf_agents::matrix::DenseMatrix;
use sheaf_agents::sheaf::CellularSheaf;

const TOL: f64 = 1e-8;

fn id(n: usize) -> DenseMatrix<f64> {
    DenseMatrix::identity(n, 0.0, 1.0)
}

fn id2() -> DenseMatrix<f64> {
    id(2)
}

fn rot90() -> DenseMatrix<f64> {
    DenseMatrix::from_rows(2, vec![vec![0.0, 1.0], vec![-1.0, 0.0]]).unwrap()
}

fn term_value(t: &Term<f64>) -> f64 {
    match t {
        Term::Zero => 0.0,
        Term::Plus(a) => 0.0 + a,
        Term::Minus(b) => 0.0 - b,
        Term::PlusMinus(a, b) => (0.0 + a) - b,
    }
}

fn kernel_value(e: &KernelEntry<f64>) -> f64 {
    match e {
        KernelEntry::Zero => 0.0,
        KernelEntry::One => 1.0,
        KernelEntry::Negated(x) => -x,
    }
}

fn from_fn(r: usize, c: usize, f: impl Fn(usize, usize) -> f64) -> DenseMatrix<f64> {
    let rows = (0..r).map(|i| (0..c).map(|j| f(i, j)).collect()).collect();
    DenseMatrix::from_rows(c, rows).unwrap()
}

fn transpose(m: &DenseMatrix<f64>) -> DenseMatrix<f64> {
    from_fn(m.ncols(), m.nrows(), |i, j| m.get(j, i))
}

fn ns(m: &DenseMatrix<f64>, tol: f64) -> (usize, DenseMatrix<f64>) {
    let r = null_space(
        m,
        tol,
        0.0,
        |x: f64| x.abs(),
        |a: f64, b: f64| a > b,
        |a: f64, b: f64| a / b,
        |a: f64, f: f64, b: f64| a - f * b,
    );
    let b = from_fn(r.basis.nrows(), r.basis.ncols(), |i, j| kernel_value(&r.basis.get(i, j)));
    (r.rank, b)
}

fn coboundary(s: &CellularSheaf<f64>) -> DenseMatrix<f64> {
    let d = s.build_coboundary();
    from_fn(d.nrows(), d.ncols(), |i, j| term_value(&d.get(i, j)))
}

fn cohomology(s: &CellularSheaf<f64>, tol: f64) -> Cohomology<f64> {
    s.cohomology(
        tol,
        0.0,
        1.0,
        |t: Term<f64>| term_value(&t),
        |x: f64| -x,
        |x: f64| x.abs(),
        |a: f64, b: f64| a > b,
        |a: f64, b: f64| a / b,
        |a: f64, f: f64, b: f64| a - f * b,
    )
}

fn can_agree(s: &CellularSheaf<f64>, tol: f64) -> bool {
    agree_on(&cohomology(s, tol))
}

fn triangle(r: fn() -> DenseMatrix<f64>) -> CellularSheaf<f64> {
    let mut s = CellularSheaf::new(vec![2, 2, 2]);
    s.add_edge(0, 1, id2(), r());
    s.add_edge(1, 2, id2(), r());
    s.add_edge(0, 2, id2(), id2());
    s
}

fn mat_vec(m: &DenseMatrix<f64>, v: &[f64]) -> Vec<f64> {
    (0..m.nrows()).map(|i| (0..m.ncols()).map(|j| m.get(i, j) * v[j]).sum()).collect()
}

// ── Null space ──

#[test]
fn test_null_space_identity() {
    let m = id(3);
    let (rank, basis) = ns(&m, TOL);
    assert_eq!(rank, 3);
    assert_eq!(basis.ncols(), 0);
}

#[test]
fn test_null_space_zero_matrix() {
    let m = DenseMatrix::filled(2, 3, 0.0);
    let (rank, basis) = ns(&m, TOL);
    assert_eq!(rank, 0);
    assert_eq!(basis.ncols(), 3);
}

#[test]
fn test_null_space_rank_1() {
    // [1 2 3; 2 4 6] → rank 1, nullity 2
    let m = DenseMatrix::from_rows(3, vec![vec![1.0, 2.0, 3.0], vec![2.0, 4.0, 6.0]]).unwrap();
    let (rank, basis) = ns(&m, TOL);
    assert_eq!(rank, 1);
    assert_eq!(basis.ncols(), 2);
    for j in 0..basis.ncols() {
        let col = basis.column(j);
        for x in mat_vec(&m, &col) {
            assert!(x.abs() < 1e-10, "Null-space vector not in kernel: {}", x);
        }
    }
}

#[test]
fn null_space_of_matrix_without_rows_is_everything() {
    let m = DenseMatrix::<f64>::filled(0, 3, 0.0);
    let (rank, basis) = ns(&m, TOL);
    assert_eq!(rank, 0);
    assert_eq!((basis.nrows(), basis.ncols()), (3, 3));
    assert_eq!(basis.get(1, 1), 1.0);
}

#[test]
fn reduction_reports_increasing_pivots() {
    let mut w = DenseMatrix::from_rows(
        4,
        vec![vec![0.0, 2.0, 4.0, 1.0], vec![0.0, 1.0, 2.0, 3.0], vec![0.0, 0.0, 0.0, 5.0]],
    )
    .unwrap();
    let pivots = reduce_to_echelon(
        &mut w,
        TOL,
        0.0,
        |x: f64| x.abs(),
        |a: f64, b: f64| a > b,
        |a: f64, b: f64| a / b,
        |a: f64, f: f64, b: f64| a - f * b,
    );
    assert_eq!(pivots, vec![1, 3]);
    assert!((w.get(0, 1) - 1.0).abs() < 1e-12);
    assert!((w.get(0, 2) - 2.0).abs() < 1e-12);
    assert!(w.get(0, 3).abs() < 1e-12);
    assert!((w.get(1, 3) - 1.0).abs() < 1e-12);
}

// ── Cohomology ──

#[test]
fn test_single_edge_identity() {
    let mut s = CellularSheaf::new(vec![2, 2]);
    s.add_edge(0, 1, id2(), id2());
    let c = cohomology(&s, TOL);
    assert_eq!(c.h0_dim, 2, "single edge identity: H0 = 2");
    assert_eq!(c.h1_dim, 0, "single edge identity: H1 = 0");
}

#[test]
fn test_single_edge_mismatched_restrictions() {
    let mut s = CellularSheaf::new(vec![2, 2]);
    s.add_edge(0, 1, id2(), rot90());
    let c = cohomology(&s, TOL);
    assert_eq!(c.h0_dim, 2, "single edge mismatched: H0 = 2");
    assert_eq!(c.h1_dim, 0, "single edge mismatched: H1 = 0");
}

#[test]
fn test_triangle_identity() {
    let s = triangle(id2);
    let c = cohomology(&s, TOL);
    assert_eq!(c.h0_dim, 2, "triangle identity: H0 = 2 (all agree)");
    assert_eq!(c.h1_dim, 2, "triangle identity: H1 = 2 (cycle × stalk_dim)");
}

#[test]
fn test_triangle_orthogonal() {
    let s = triangle(rot90);
    let c = cohomology(&s, 1e-6);
    assert_eq!(c.h0_dim, 0, "triangle orthogonal: H0 = 0 (no global sections)");
    assert_eq!(c.h1_dim, 0, "triangle orthogonal: H1 = 0 (surjective coboundary)");
}

#[test]
fn test_star_topology() {
    let mut s = CellularSheaf::new(vec![3, 1, 1, 1]);
    for i in 0..3 {
        let mut r_center = DenseMatrix::filled(1, 3, 0.0);
        r_center.set(0, i, 1.0);
        s.add_edge(0, i + 1, r_center, id(1));
    }
    let c = cohomology(&s, TOL);
    assert!(c.h0_dim >= 1, "star: H0 >= 1 (can agree on center's view)");
}

#[test]
fn test_path_graph() {
    let mut s = CellularSheaf::new(vec![2, 2, 2, 2]);
    s.add_edge(0, 1, id2(), id2());
    s.add_edge(1, 2, id2(), id2());
    s.add_edge(2, 3, id2(), id2());
    let c = cohomology(&s, TOL);
    assert_eq!(c.h0_dim, 2, "path graph: H0 = 2");
    assert_eq!(c.h1_dim, 0, "path graph: H1 = 0 (tree, no cycle)");
}

#[test]
fn test_can_agree_identity_triangle_false() {
    assert!(!can_agree(&triangle(id2), TOL), "identity triangle: can_agree = false (H1=2)");
}

#[test]
fn test_can_agree_orthogonal_triangle_true() {
    assert!(can_agree(&triangle(rot90), 1e-6), "orthogonal triangle: can_agree = true (H1=0)");
}

#[test]
fn test_can_agree_single_edge_true() {
    let mut s = CellularSheaf::new(vec![2, 2]);
    s.add_edge(0, 1, id2(), id2());
    assert!(can_agree(&s, TOL), "single edge: can_agree = true");
}

#[test]
fn test_forced_disagreement_identity_triangle() {
    let fd = cohomology(&triangle(id2), 1e-6).h1_basis;
    assert!(fd.ncols() > 0, "returns basis for H1>0");
    assert_eq!(fd.nrows(), 6, "edge dimension = 6");
}

#[test]
fn test_forced_disagreement_none() {
    let mut s = CellularSheaf::new(vec![2, 2]);
    s.add_edge(0, 1, id2(), id2());
    let fd = cohomology(&s, TOL).h1_basis;
    assert_eq!(fd.ncols(), 0, "empty when H1=0");
}

#[test]
fn test_h0_basis_are_global_sections() {
    let mut s = CellularSheaf::new(vec![2, 2]);
    s.add_edge(0, 1, id2(), id2());
    let c = cohomology(&s, TOL);
    assert_eq!(c.h0_basis.ncols(), 2, "2 global sections");
    let x0_0 = c.h0_basis.get(0, 0);
    let x1_0 = c.h0_basis.get(2, 0);
    assert!((x0_0 - x1_0).abs() < 1e-6, "global section: v0 = v1");
}

#[test]
fn test_h1_regression_old_formula() {
    let s = triangle(id2);
    let c = cohomology(&s, TOL);
    assert_eq!(c.h1_dim, 2, "regression: identity triangle H1=2, not 0 (old formula gave 0)");
    assert_eq!(c.h1_basis.ncols(), 2, "H1 basis has 2 columns");
    assert_eq!(c.h1_basis.nrows(), 6, "H1 basis has edge_dim=6 rows");
    let d0t = transpose(&coboundary(&s));
    for col in 0..c.h1_basis.ncols() {
        let v = c.h1_basis.column(col);
        let norm: f64 = mat_vec(&d0t, &v).iter().map(|x| x * x).sum::<f64>().sqrt();
        assert!(norm < 1e-10, "H1 basis vector {} not in ker(d0^T): ||d0^T h|| = {}", col, norm);
    }
}

#[test]
fn test_five_cycle() {
    let mut s = CellularSheaf::new(vec![1, 1, 1, 1, 1]);
    for i in 0..5 {
        s.add_edge(i, (i + 1) % 5, id(1), id(1));
    }
    let c = cohomology(&s, TOL);
    assert_eq!(c.h0_dim, 1, "5-cycle: H0 = 1 (connected, dim=1 stalks)");
    assert_eq!(c.h1_dim, 1, "5-cycle: H1 = 1 (one cycle × dim-1 stalks)");
}

#[test]
fn test_asymmetric_stalks() {
    let mut s = CellularSheaf::new(vec![3, 1]);
    let r1 = DenseMatrix::from_rows(3, vec![vec![1.0, 0.0, 0.0]]).unwrap();
    s.add_edge(0, 1, r1, id(1));
    let c = cohomology(&s, TOL);
    assert_eq!(c.h0_dim, 3, "asymmetric: H0 = 3");
    assert_eq!(c.h1_dim, 0, "asymmetric: H1 = 0 (no cycle)");
}

#[test]
fn test_h0_h1_convenience() {
    let c = cohomology(&triangle(id2), TOL);
    assert_eq!(c.h0_dim, 2, "h0() convenience: identity triangle H0=2");
    assert_eq!(c.h1_dim, 2, "h1() convenience: identity triangle H1=2");
}

#[test]
fn test_h0_h1_orthogonal() {
    let c = cohomology(&triangle(rot90), 1e-6);
    assert_eq!(c.h0_dim, 0, "h0() orthogonal: H0=0");
    assert_eq!(c.h1_dim, 0, "h1() orthogonal: H1=0");
}

#[test]
fn test_cohomology_basis_h0_single_edge() {
    let mut s = CellularSheaf::new(vec![2, 2]);
    s.add_edge(0, 1, id2(), id2());
    let basis = cohomology(&s, TOL).cohomology_basis(0);
    assert_eq!(basis.len(), 2, "H0 basis should have 2 vectors");
    assert_eq!(basis[0].len(), 4, "each basis vector should have dim=4");
}

#[test]
fn test_cohomology_basis_h1_identity_triangle() {
    let basis = cohomology(&triangle(id2), TOL).cohomology_basis(1);
    assert_eq!(basis.len(), 2, "H1 basis should have 2 vectors");
    assert_eq!(basis[0].len(), 6, "each H1 vector should have edge_dim=6");
}

#[test]
fn edge_without_rows_keeps_whole_vertex_space() {
    // d0 has no rows: H0 is the whole vertex space with an n × n basis.
    let mut s = CellularSheaf::new(vec![2, 1]);
    s.add_edge(0, 1, DenseMatrix::filled(0, 2, 0.0), DenseMatrix::filled(0, 1, 0.0));
    let c = cohomology(&s, TOL);
    assert_eq!(c.h0_dim, 3);
    assert_eq!(c.cohomology_basis(0).len(), 3);
    assert_eq!(c.h1_dim, 0);
}
