//! How an offloading decision is carried out in the event-driven simulation.
use crate::algorithms::offloading::OffloadTarget;
use vstd::prelude::*;

verus! {

/// The UAVs that take part in running an offloaded task, as indices into the
/// list of UAVs (UAV identifiers count from 1, so UAV `id` sits at `id - 1`).
#[derive(Debug, Clone, Copy, PartialEq, Eq, Structural)]
pub struct TaskRoute {
    /// The UAV whose queue receives the task and which spends the computation energy.
    pub executing_uav_index: usize,
    /// The UAV the user is connected to, which spends the transmission energy.
    pub transmitting_uav_index: usize,
}

/// Carries out an offloading decision for a task whose user is connected to
/// `primary_uav_id`: a dropped task involves no UAV; a task kept on the user's
/// own UAV is queued on it and costs it both computation and transmission
/// energy; a forwarded task is queued on (and computed by) the target UAV while
/// the user's UAV spends the transmission energy.
pub fn route_task(target: OffloadTarget, primary_uav_id: Option<usize>) -> (r: Option<TaskRoute>)
    requires
        !(target is Drop) ==> (primary_uav_id matches Some(p) && p >= 1),
        target matches OffloadTarget::ForwardedUav { target_uav_id } ==> target_uav_id >= 1,
    ensures
        target is Drop ==> r is None,
        target is PrimaryUav ==> r == Some(
            TaskRoute {
                executing_uav_index: (primary_uav_id.unwrap() - 1) as usize,
                transmitting_uav_index: (primary_uav_id.unwrap() - 1) as usize,
            },
        ),
        target matches OffloadTarget::ForwardedUav { target_uav_id } ==> r == Some(
            TaskRoute {
                executing_uav_index: (target_uav_id - 1) as usize,
                transmitting_uav_index: (primary_uav_id.unwrap() - 1) as usize,
            },
        ),
{
    match target {
        OffloadTarget::Drop => None,
        OffloadTarget::PrimaryUav => {
            let index = primary_uav_id.unwrap() - 1;
            Some(TaskRoute { executing_uav_index: index, transmitting_uav_index: index })
        },
        OffloadTarget::ForwardedUav { target_uav_id } => {
            let primary_index = primary_uav_id.unwrap() - 1;
            Some(TaskRoute { executing_uav_index: target_uav_id - 1, transmitting_uav_index: primary_index })
        },
    }
}

} // verus!
