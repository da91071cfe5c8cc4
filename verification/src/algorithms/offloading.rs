//! Where a task is offloaded once the candidate UAVs have been weighed.
use vstd::prelude::*;

verus! {

/// The UAV that runs a task, if any.
#[derive(Debug, Clone, Copy, PartialEq, Eq, Structural)]
pub enum OffloadTarget {
    /// The UAV the user is connected to runs the task.
    PrimaryUav,
    /// The user's UAV forwards the task to another UAV, which runs it.
    ForwardedUav { target_uav_id: usize },
    /// No UAV runs the task.
    Drop,
}

/// Offloads each task to the UAV with the least energy consumed among those
/// that can finish it within its delay tolerance.
#[derive(Debug, Clone, Copy)]
pub struct EnergyBalancingOffloader;

/// Where a task goes, given the UAV its user is connected to and the UAV chosen
/// among the candidates.
pub open spec fn offload_target_spec(primary_uav_id: Option<usize>, best_uav_id: Option<usize>) -> OffloadTarget {
    match primary_uav_id {
        None => OffloadTarget::Drop,
        Some(primary) => match best_uav_id {
            None => OffloadTarget::Drop,
            Some(best) => if best == primary {
                OffloadTarget::PrimaryUav
            } else {
                OffloadTarget::ForwardedUav { target_uav_id: best }
            },
        },
    }
}

/// A task is dropped when its user has no UAV or no UAV was chosen; otherwise
/// it stays on the user's UAV exactly when that UAV was chosen, and is forwarded
/// to the chosen UAV whenever another one was chosen.
pub proof fn lemma_offload_target(primary_uav_id: Option<usize>, best_uav_id: Option<usize>)
    ensures
        primary_uav_id is None ==> offload_target_spec(primary_uav_id, best_uav_id)
            == OffloadTarget::Drop,
        best_uav_id is None ==> offload_target_spec(primary_uav_id, best_uav_id)
            == OffloadTarget::Drop,
        forall|p: usize, b: usize|
            primary_uav_id == Some(p) && best_uav_id == Some(b) ==> ((offload_target_spec(
                primary_uav_id,
                best_uav_id,
            ) == OffloadTarget::PrimaryUav) <==> b == p),
        forall|p: usize, b: usize|
            primary_uav_id == Some(p) && best_uav_id == Some(b) && b != p ==> offload_target_spec(
                primary_uav_id,
                best_uav_id,
            ) == (OffloadTarget::ForwardedUav { target_uav_id: b }),
{
}

impl EnergyBalancingOffloader {
    /// Decides where a task goes: a user with no UAV connection has its task
    /// dropped; otherwise the task goes to the chosen UAV (its own UAV, or another
    /// one it is forwarded to), and is dropped when no UAV was chosen.
    pub fn target(&self, primary_uav_id: Option<usize>, best_uav_id: Option<usize>) -> (t: OffloadTarget)
        ensures
            t == offload_target_spec(primary_uav_id, best_uav_id),
            primary_uav_id is None ==> t == OffloadTarget::Drop,
            best_uav_id is None ==> t == OffloadTarget::Drop,
            forall|p: usize, b: usize|
                primary_uav_id == Some(p) && best_uav_id == Some(b) ==> ((t
                    == OffloadTarget::PrimaryUav) <==> b == p),
            forall|p: usize, b: usize|
                primary_uav_id == Some(p) && best_uav_id == Some(b) && b != p ==> t
                    == (OffloadTarget::ForwardedUav { target_uav_id: b }),
    {
        proof {
            lemma_offload_target(primary_uav_id, best_uav_id);
        }
        let primary = match primary_uav_id {
            Some(id) => id,
            None => return OffloadTarget::Drop,
        };
        match best_uav_id {
            Some(best) => {
                if best == primary {
                    OffloadTarget::PrimaryUav
                } else {
                    OffloadTarget::ForwardedUav { target_uav_id: best }
                }
            },
            None => OffloadTarget::Drop,
        }
    }
}

} // verus!
