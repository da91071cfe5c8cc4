//! How a user's position is updated as it moves.
use vstd::prelude::*;

verus! {

/// The kind of movement a user makes at each step.
#[derive(Debug, Clone, Copy, PartialEq, Eq, Structural)]
pub enum PositionUpdateType {
    /// A random displacement along every axis, bounded by the velocity.
    RANDOM,
    /// A move along either the X or the Y axis at full velocity.
    DIRECTIONAL,
}

} // verus!
