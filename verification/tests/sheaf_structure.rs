use sheaf_agents::agents::AgentNetwork;
use sheaf_agents::coboundary::Term;
use sheaf_agents::cohomology::{can_agree, Cohomology, CohomologyCase};
use sheaf_agents::laplacian::BlockProduct;
use sheaf_agents::matrix::DenseMatrix;
use sheaf_agents::sheaf::CellularSheaf;

fn id(n: usize) -> DenseMatrix<f64> {
    DenseMatrix::identity(n, 0.0, 1.0)
}

fn id2() -> DenseMatrix<f64> {
    id(2)
}

fn zeros(r: usize, c: usize) -> DenseMatrix<f64> {
    DenseMatrix::filled(r, c, 0.0)
}

fn rot90() -> DenseMatrix<f64> {
    DenseMatrix::from_rows(2, vec![vec![0.0, 1.0], vec![-1.0, 0.0]]).unwrap()
}

fn value(t: &Term<f64>) -> f64 {
    match t {
        Term::Zero => 0.0,
        Term::Plus(a) => 0.0 + a,
        Term::Minus(b) => 0.0 - b,
        Term::PlusMinus(a, b) => (0.0 + a) - b,
    }
}

/// Cohomology of a sheaf whose case is decided without elimination.
fn cohomology_without_elimination(s: &CellularSheaf<f64>) -> Cohomology<f64> {
    match s.cohomology_case() {
        CohomologyCase::Trivial => Cohomology::trivial(),
        CohomologyCase::NoEdges => Cohomology::without_edges(s.total_vertex_dim(), 0.0, 1.0),
        CohomologyCase::Coboundary => panic!("needs elimination"),
    }
}

// ── Tests carried over ──

#[test]
fn test_empty_sheaf() {
    let s: CellularSheaf<f64> = CellularSheaf::new(vec![]);
    let c = cohomology_without_elimination(&s);
    assert_eq!(c.h0_dim, 0);
    assert_eq!(c.h1_dim, 0);
}

#[test]
fn test_single_vertex() {
    let s: CellularSheaf<f64> = CellularSheaf::new(vec![3]);
    let c = cohomology_without_elimination(&s);
    assert_eq!(c.h0_dim, 3, "single vertex: H0 = 3 (whole stalk)");
    assert_eq!(c.h1_dim, 0);
}

#[test]
fn test_disconnected_two_vertices() {
    let s: CellularSheaf<f64> = CellularSheaf::new(vec![2, 2]);
    let c = cohomology_without_elimination(&s);
    assert_eq!(c.h0_dim, 4, "disconnected: H0 = 2+2 = 4");
    assert_eq!(c.h1_dim, 0);
}

#[test]
fn test_agent_network_lifecycle() {
    let s: CellularSheaf<f64> = CellularSheaf::new(vec![3, 2, 1]);
    let net = AgentNetwork::new(&s, 0.0);
    assert_eq!(net.agents.len(), 3);
}

#[test]
fn test_coboundary_single_edge() {
    let mut s = CellularSheaf::new(vec![2, 2]);
    s.add_edge(0, 1, id2(), id2());

    let d0 = s.build_coboundary();
    assert_eq!(d0.nrows(), 2, "edge dim = 2");
    assert_eq!(d0.ncols(), 4, "vertex dim = 4");

    // Should be [I | -I]
    assert!((value(&d0.get(0, 0)) - 1.0).abs() < 1e-10);
    assert!((value(&d0.get(0, 2)) - (-1.0)).abs() < 1e-10);
    assert!((value(&d0.get(1, 1)) - 1.0).abs() < 1e-10);
    assert!((value(&d0.get(1, 3)) - (-1.0)).abs() < 1e-10);
}

#[test]
fn test_total_dims() {
    let mut s = CellularSheaf::new(vec![2, 3, 1]);
    s.add_edge(0, 1, zeros(2, 2), zeros(2, 3));
    assert_eq!(s.total_vertex_dim(), 6);
    assert_eq!(s.total_edge_dim(), 2);
}

#[test]
fn test_cohomology_basis_invalid_dim() {
    let s: CellularSheaf<f64> = CellularSheaf::new(vec![2, 2]);
    let c = cohomology_without_elimination(&s);
    assert!(c.cohomology_basis(2).is_empty(), "dim=2 should return empty");
    assert!(c.cohomology_basis(3).is_empty(), "dim=3 should return empty");
}

// ── Sheaf shape ──

#[test]
fn vertex_offsets_are_prefix_sums() {
    let s: CellularSheaf<f64> = CellularSheaf::new(vec![3, 2, 1]);
    assert_eq!(s.vertex_offset(0), 0);
    assert_eq!(s.vertex_offset(1), 3);
    assert_eq!(s.vertex_offset(2), 5);
    assert_eq!(s.vertex_offset(3), 6);
    assert_eq!(s.vertex_offset(3), s.total_vertex_dim());
}

#[test]
fn add_edge_appends_and_keeps_stalks() {
    let mut s = CellularSheaf::new(vec![2, 2, 2]);
    s.add_edge(0, 1, id2(), id2());
    s.add_edge(2, 1, id2(), rot90());
    assert_eq!(s.stalk_dims, vec![2, 2, 2]);
    assert_eq!(s.edges.len(), 2);
    assert_eq!(s.edges[1].v1, 2);
    assert_eq!(s.edges[1].v2, 1);
    assert_eq!(s.edges[1].r2.get(1, 0), -1.0);
    assert_eq!(s.total_edge_dim(), 4);
}

#[test]
fn empty_sheaf_dims_are_zero() {
    let s: CellularSheaf<f64> = CellularSheaf::new(vec![]);
    assert_eq!(s.total_vertex_dim(), 0);
    assert_eq!(s.total_edge_dim(), 0);
    assert_eq!(s.vertex_offset(0), 0);
}

// ── Dense matrices ──

#[test]
fn identity_and_filled() {
    let m = id(3);
    for i in 0..3 {
        for j in 0..3 {
            assert_eq!(m.get(i, j), if i == j { 1.0 } else { 0.0 });
        }
    }
    let z = DenseMatrix::filled(2, 5, 7u8);
    assert_eq!(z.nrows(), 2);
    assert_eq!(z.ncols(), 5);
    assert_eq!(z.get(1, 4), 7);
}

#[test]
fn from_rows_checks_widths() {
    assert!(DenseMatrix::from_rows(2, vec![vec![1, 2], vec![3]]).is_none());
    let m = DenseMatrix::from_rows(2, vec![vec![1, 2], vec![3, 4]]).unwrap();
    assert_eq!(m.get(1, 0), 3);
    let empty = DenseMatrix::<i32>::from_rows(4, vec![]).unwrap();
    assert_eq!(empty.nrows(), 0);
    assert_eq!(empty.ncols(), 4);
}

#[test]
fn columns_read_top_to_bottom() {
    let m = DenseMatrix::from_rows(3, vec![vec![1, 2, 3], vec![4, 5, 6]]).unwrap();
    assert_eq!(m.column(1), vec![2, 5]);
    assert_eq!(m.columns(), vec![vec![1, 4], vec![2, 5], vec![3, 6]]);
    let c = m.copied();
    assert_eq!(c.rows, m.rows);
    assert_eq!(c.ncols, 3);
}

// ── Coboundary ──

#[test]
fn coboundary_blocks_follow_edges() {
    let mut s = CellularSheaf::new(vec![3, 1]);
    let r1 = DenseMatrix::from_rows(3, vec![vec![1.0, 0.0, 0.0]]).unwrap();
    s.add_edge(0, 1, r1, id(1));
    let d0 = s.build_coboundary();
    assert_eq!(d0.nrows(), 1);
    assert_eq!(d0.ncols(), 4);
    assert_eq!(d0.get(0, 0), Term::Plus(1.0));
    assert_eq!(d0.get(0, 1), Term::Plus(0.0));
    assert_eq!(d0.get(0, 2), Term::Plus(0.0));
    assert_eq!(d0.get(0, 3), Term::Minus(1.0));
}

#[test]
fn coboundary_of_self_loop_subtracts_in_place() {
    let mut s = CellularSheaf::new(vec![1, 2]);
    let r2 = DenseMatrix::from_rows(2, vec![vec![5.0, 6.0]]).unwrap();
    let r1 = DenseMatrix::from_rows(2, vec![vec![3.0, 4.0]]).unwrap();
    s.add_edge(1, 1, r1, r2);
    let d0 = s.build_coboundary();
    assert_eq!(d0.get(0, 0), Term::Zero);
    assert_eq!(d0.get(0, 1), Term::PlusMinus(3.0, 5.0));
    assert_eq!(d0.get(0, 2), Term::PlusMinus(4.0, 6.0));
    assert_eq!(value(&d0.get(0, 1)), -2.0);
}

#[test]
fn coboundary_rows_stack_edges() {
    let mut s = CellularSheaf::new(vec![1, 1, 1]);
    s.add_edge(0, 1, id(1), id(1));
    s.add_edge(1, 2, id(1), id(1));
    s.add_edge(0, 2, id(1), id(1));
    let d0 = s.build_coboundary();
    assert_eq!(d0.nrows(), 3);
    let expected = [[1.0, -1.0, 0.0], [0.0, 1.0, -1.0], [1.0, 0.0, -1.0]];
    for r in 0..3 {
        for c in 0..3 {
            assert_eq!(value(&d0.get(r, c)), expected[r][c]);
        }
    }
}

// ── Laplacian layout ──

#[test]
fn laplacian_layout_places_four_blocks_per_edge() {
    let mut s = CellularSheaf::new(vec![2, 3, 1]);
    s.add_edge(0, 2, zeros(1, 2), zeros(1, 1));
    s.add_edge(1, 0, zeros(2, 3), zeros(2, 2));
    let blocks = s.laplacian_layout();
    assert_eq!(blocks.len(), 8);
    let b = blocks[2];
    assert_eq!(b.product, BlockProduct::R1tR2);
    assert_eq!((b.row_offset, b.col_offset, b.nrows, b.ncols, b.subtract), (0, 5, 2, 1, true));
    let m = blocks[3];
    assert_eq!(m.product, BlockProduct::R2tR1);
    assert_eq!((m.row_offset, m.col_offset, m.nrows, m.ncols), (5, 0, 1, 2));
    let d = blocks[4];
    assert_eq!(d.edge, 1);
    assert_eq!(d.product, BlockProduct::R1tR1);
    assert_eq!((d.row_offset, d.col_offset, d.nrows, d.ncols, d.subtract), (2, 2, 3, 3, false));
    let d2 = blocks[5];
    assert_eq!((d2.row_offset, d2.col_offset, d2.nrows, d2.ncols), (0, 0, 2, 2));
}

// ── Cohomology bookkeeping ──

#[test]
fn cohomology_from_kernels_counts_dimensions() {
    // Identity triangle on 2-dim stalks: d0 is 6 x 6 of rank 4.
    let c = Cohomology::from_kernels(6, 6, 4, zeros(6, 2), 4, zeros(6, 2));
    assert_eq!(c.h0_dim, 2);
    assert_eq!(c.h1_dim, 2);
    assert!(!can_agree(&c));
    // Euler characteristic with equal ranks.
    let e = Cohomology::from_kernels(5, 3, 2, zeros(5, 3), 2, zeros(3, 1));
    assert_eq!(e.h0_dim + 3, e.h1_dim + 5);
    assert!(can_agree(&Cohomology::from_kernels(4, 2, 2, zeros(4, 2), 2, zeros(2, 0))));
}

#[test]
fn cohomology_case_decisions() {
    let empty: CellularSheaf<f64> = CellularSheaf::new(vec![]);
    assert_eq!(empty.cohomology_case(), CohomologyCase::Trivial);
    let lone: CellularSheaf<f64> = CellularSheaf::new(vec![2]);
    assert_eq!(lone.cohomology_case(), CohomologyCase::NoEdges);
    let mut edge = CellularSheaf::new(vec![2, 2]);
    edge.add_edge(0, 1, id2(), id2());
    assert_eq!(edge.cohomology_case(), CohomologyCase::Coboundary);
    let mut flat = CellularSheaf::new(vec![0, 0]);
    flat.add_edge(0, 1, zeros(0, 0), zeros(0, 0));
    assert_eq!(flat.cohomology_case(), CohomologyCase::Trivial);
}

#[test]
fn cohomology_basis_lists_columns() {
    let c = Cohomology::without_edges(2, 0, 1);
    assert_eq!(c.cohomology_basis(0), vec![vec![1, 0], vec![0, 1]]);
    assert!(c.cohomology_basis(1).is_empty());
    let h1 = DenseMatrix::from_rows(2, vec![vec![1, 2], vec![3, 4], vec![5, 6]]).unwrap();
    let k = Cohomology::from_kernels(1, 3, 1, DenseMatrix::filled(1, 0, 0), 1, h1);
    assert!(k.cohomology_basis(0).is_empty());
    assert_eq!(k.cohomology_basis(1), vec![vec![1, 3, 5], vec![2, 4, 6]]);
}

#[test]
fn trivial_cohomology_is_empty() {
    let c: Cohomology<f64> = Cohomology::trivial();
    assert_eq!((c.h0_dim, c.h1_dim), (0, 0));
    assert_eq!(c.h0_basis.nrows(), 0);
    assert_eq!(c.h1_basis.ncols(), 0);
    assert!(can_agree(&c));
}

#[test]
fn checks_match_predicates() {
    let mut s = CellularSheaf::new(vec![2, 2]);
    s.add_edge(0, 1, id2(), id2());
    assert!(s.check_sizes() && s.check_maps() && s.check_coboundary() && s.check_endpoints());
    let mut bad = CellularSheaf::new(vec![2, 2]);
    bad.add_edge(0, 2, id2(), id2());
    assert!(!bad.check_endpoints());
    // v2 == number of vertices: its block would start at the end of the vertex space.
    assert!(!bad.check_coboundary());
    let mut ragged = CellularSheaf::new(vec![2]);
    ragged.add_edge(0, 0, DenseMatrix { ncols: 2, rows: vec![vec![1.0]] }, id2());
    assert!(!ragged.check_maps());
    let huge: CellularSheaf<f64> = CellularSheaf::new(vec![usize::MAX, 1]);
    assert!(!huge.check_vertex_dims());
    assert!(huge.check_edge_dims());
}

#[test]
fn set_and_swap_rows() {
    let mut m = DenseMatrix::from_rows(2, vec![vec![1, 2], vec![3, 4], vec![5, 6]]).unwrap();
    m.set(1, 0, 9);
    assert_eq!(m.rows, vec![vec![1, 2], vec![9, 4], vec![5, 6]]);
    m.swap_rows(0, 2);
    assert_eq!(m.rows, vec![vec![5, 6], vec![9, 4], vec![1, 2]]);
    m.swap_rows(1, 1);
    assert_eq!(m.rows, vec![vec![5, 6], vec![9, 4], vec![1, 2]]);
}
