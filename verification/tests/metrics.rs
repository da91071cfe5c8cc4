use cmpe524_network_designer::models::metrics::SimulationMetrics;

#[test]
fn new_metrics_are_zero() {
    let m = SimulationMetrics::new();
    assert_eq!(m.total_tasks_generated, 0);
    assert_eq!(m.successful_tasks, 0);
    assert_eq!(m.dropped_tasks, 0);
}

#[test]
fn every_task_is_a_success_or_a_drop() {
    let mut m = SimulationMetrics::new();
    m.record_success();
    m.record_drop();
    m.record_success();
    m.record_success();
    m.record_drop();
    assert_eq!(m.total_tasks_generated, 5);
    assert_eq!(m.successful_tasks, 3);
    assert_eq!(m.dropped_tasks, 2);
    assert_eq!(m.total_tasks_generated, m.successful_tasks + m.dropped_tasks);
}
