use cellmesh::grid::MAX_STEPS;
use cellmesh::metrics::{oracle_outcome, recovery_cost, Metrics};

#[test]
fn add_keeps_only_successes() {
    let mut m = Metrics::default();
    assert_eq!(m.success, 0);
    m.add(true, 30, 0);
    m.add(false, 512, 99);
    m.add(true, 34, 4);
    assert_eq!(m.success, 2);
    assert_eq!(m.hops, vec![30, 34]);
    assert_eq!(m.recovery, vec![0, 4]);
}

#[test]
fn recovery_cost_cases() {
    assert_eq!(recovery_cost(Some(34), 30), 4);
    assert_eq!(recovery_cost(Some(30), 30), 0);
    assert_eq!(recovery_cost(Some(20), 30), 0);
    assert_eq!(recovery_cost(None, 30), MAX_STEPS);
}

#[test]
fn oracle_outcome_cases() {
    assert_eq!(oracle_outcome(Some(30)), (true, 30));
    assert_eq!(oracle_outcome(None), (false, MAX_STEPS));
}
