use cmpe524_network_designer::algorithms::offloading::{EnergyBalancingOffloader, OffloadTarget};
use cmpe524_network_designer::simulation::{route_task, TaskRoute};

#[test]
fn unconnected_users_have_their_tasks_dropped() {
    let offloader = EnergyBalancingOffloader;
    assert_eq!(offloader.target(None, Some(3)), OffloadTarget::Drop);
    assert_eq!(offloader.target(None, None), OffloadTarget::Drop);
}

#[test]
fn no_candidate_drops_the_task() {
    let offloader = EnergyBalancingOffloader;
    assert_eq!(offloader.target(Some(2), None), OffloadTarget::Drop);
}

#[test]
fn the_own_uav_keeps_the_task() {
    let offloader = EnergyBalancingOffloader;
    assert_eq!(offloader.target(Some(2), Some(2)), OffloadTarget::PrimaryUav);
}

#[test]
fn another_uav_receives_a_forwarded_task() {
    let offloader = EnergyBalancingOffloader;
    assert_eq!(
        offloader.target(Some(2), Some(5)),
        OffloadTarget::ForwardedUav { target_uav_id: 5 }
    );
}

#[test]
fn routes_follow_the_decision() {
    assert_eq!(route_task(OffloadTarget::Drop, None), None);
    assert_eq!(route_task(OffloadTarget::Drop, Some(4)), None);
    assert_eq!(
        route_task(OffloadTarget::PrimaryUav, Some(3)),
        Some(TaskRoute { executing_uav_index: 2, transmitting_uav_index: 2 })
    );
    assert_eq!(
        route_task(OffloadTarget::ForwardedUav { target_uav_id: 1 }, Some(3)),
        Some(TaskRoute { executing_uav_index: 0, transmitting_uav_index: 2 })
    );
}
