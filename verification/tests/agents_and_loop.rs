use sheaf_agents::agents::AgentNetwork;
use sheaf_agents::converge::{ConvergeAction, ConvergeLoop, ConvergenceResult};
use sheaf_agents::matrix::DenseMatrix;
use sheaf_agents::sheaf::CellularSheaf;

fn id2() -> DenseMatrix<f64> {
    DenseMatrix::identity(2, 0.0, 1.0)
}

#[test]
fn new_network_has_zero_beliefs() {
    let mut s = CellularSheaf::new(vec![3, 2, 1]);
    s.add_edge(0, 1, DenseMatrix::filled(1, 3, 1.0), DenseMatrix::filled(1, 2, 1.0));
    let net = AgentNetwork::new(&s, 0.0);
    for (v, a) in net.agents.iter().enumerate() {
        assert_eq!(a.vertex, v);
        assert_eq!(a.belief, vec![0.0; s.stalk_dims[v]]);
    }
    assert_eq!(net.sheaf.stalk_dims, s.stalk_dims);
    assert_eq!(net.sheaf.edges.len(), 1);
    assert_eq!(net.sheaf.edges[0].r1.rows, s.edges[0].r1.rows);
}

#[test]
fn set_belief_then_combined_reads_back() {
    let mut s = CellularSheaf::new(vec![2, 2]);
    s.add_edge(0, 1, id2(), id2());
    let mut net = AgentNetwork::new(&s, 0.0);
    net.set_belief(1, vec![3.0, 4.0]);
    assert_eq!(net.agents[1].belief, vec![3.0, 4.0]);
    assert_eq!(net.agents[1].vertex, 1);
    assert_eq!(net.agents[0].belief, vec![0.0, 0.0]);
    assert_eq!(net.combined_belief(0.0), vec![0.0, 0.0, 3.0, 4.0]);
    net.set_belief(0, vec![1.0, 2.0, 9.0]);
    assert_eq!(net.combined_belief(0.0), vec![1.0, 2.0, 3.0, 4.0]);
}

#[test]
fn loop_with_no_rounds_finishes_at_once() {
    let (_, act) = ConvergeLoop::start(0, true);
    assert_eq!(
        act,
        ConvergeAction::Finish(ConvergenceResult {
            iterations: 0,
            converged: false,
            obstruction_detected: true
        })
    );
}

#[test]
fn loop_stops_when_disagreement_below_tolerance() {
    let (lp, act) = ConvergeLoop::start(5, true);
    assert_eq!(act, ConvergeAction::MeasureDisagreement);
    assert_eq!(
        lp.on_disagreement(true),
        ConvergeAction::Finish(ConvergenceResult {
            iterations: 1,
            converged: true,
            obstruction_detected: false
        })
    );
}

#[test]
fn loop_stops_when_gradient_vanishes() {
    let (mut lp, _) = ConvergeLoop::start(5, false);
    assert_eq!(lp.on_disagreement(false), ConvergeAction::Synchronize);
    assert_eq!(lp.on_synchronized(false), ConvergeAction::MeasureDisagreement);
    assert_eq!(lp.iteration, 1);
    assert_eq!(lp.on_disagreement(false), ConvergeAction::Synchronize);
    assert_eq!(
        lp.on_synchronized(true),
        ConvergeAction::Finish(ConvergenceResult {
            iterations: 2,
            converged: true,
            obstruction_detected: false
        })
    );
}

#[test]
fn loop_gives_up_after_max_rounds() {
    let (mut lp, mut act) = ConvergeLoop::start(3, true);
    let mut syncs = 0;
    loop {
        match act {
            ConvergeAction::MeasureDisagreement => act = lp.on_disagreement(false),
            ConvergeAction::Synchronize => {
                syncs += 1;
                act = lp.on_synchronized(false);
            }
            ConvergeAction::Finish(r) => {
                assert_eq!(
                    r,
                    ConvergenceResult { iterations: 3, converged: false, obstruction_detected: true }
                );
                break;
            }
        }
    }
    assert_eq!(syncs, 3);
}

#[test]
fn apply_gradient_moves_each_stalk_by_its_block() {
    let mut s = CellularSheaf::new(vec![2, 1]);
    s.add_edge(0, 1, DenseMatrix::filled(1, 2, 1i64), DenseMatrix::filled(1, 1, 1i64));
    let mut net = AgentNetwork::new(&s, 0i64);
    net.set_belief(0, vec![10, 20]);
    net.set_belief(1, vec![30, 99]);
    let gradient = vec![1, 2, 3];
    net.apply_gradient(&gradient, |b: i64, g: i64| b - 2 * g);
    assert_eq!(net.agents[0].belief, vec![8, 16]);
    // Entry past the stalk dimension stays.
    assert_eq!(net.agents[1].belief, vec![24, 99]);
    assert_eq!(net.combined_belief(0), vec![8, 16, 24]);
}

#[test]
fn check_beliefs_needs_covering_beliefs() {
    let s: CellularSheaf<f64> = CellularSheaf::new(vec![2, 1]);
    let mut net = AgentNetwork::new(&s, 0.0);
    assert!(net.check_beliefs());
    net.set_belief(0, vec![1.0]);
    assert!(!net.check_beliefs());
}

#[test]
fn combined_belief_fills_vertices_without_agents() {
    let s: CellularSheaf<i32> = CellularSheaf::new(vec![1, 2]);
    let mut net = AgentNetwork::new(&s, 0);
    net.set_belief(0, vec![5]);
    net.agents.pop();
    assert!(net.check_beliefs());
    assert_eq!(net.combined_belief(-1), vec![5, -1, -1]);
    net.apply_gradient(&vec![1, 1, 1], |b: i32, g: i32| b + g);
    assert_eq!(net.agents[0].belief, vec![6]);
}
