//! Client-side smoothing of replicated entity state.
//!
//! Authoritative snapshots arrive from a server as `(tick, value)` pairs at a
//! bounded tick rate.  Remote entities are rendered by interpolating between
//! the two snapshots that bracket a slightly delayed target tick; entities
//! owned by the local client are simulated ahead and reconciled toward the
//! newest authoritative value.

use vstd::prelude::*;

pub mod interpolation;
pub mod prediction;

verus! {

/// Identifier of the client that authoritatively controls a replicated entity.
/// Immutable for the entity's replicated lifetime.
#[derive(Clone, Copy, PartialEq, Eq, Structural, Debug)]
pub struct NetworkOwner(pub u64);

/// The two strictly ordered phases of each frame: buffer and marker
/// initialization first, then interpolation and reconciliation.
#[derive(Debug, Hash, PartialEq, Eq, Clone, Copy)]
pub enum InterpolationSet {
    /// Allocates buffers and classifies newly observed replicated entities.
    Init,
    /// Reads buffers and writes blended values; runs strictly after `Init`.
    Interpolate,
}

/// Construction-time entry point: holds the one configuration parameter, the
/// maximum tick rate of the authoritative source.
pub struct SnapshotInterpolationPlugin {
    /// Should reflect the server max tick rate.
    pub max_tick_rate: u16,
}

impl SnapshotInterpolationPlugin {
    /// The read-only configuration handed to the interpolation systems.
    pub fn config(&self) -> (c: interpolation::SnapshotInterpolationConfig)
        ensures
            c.max_tick_rate == self.max_tick_rate,
    {
        interpolation::SnapshotInterpolationConfig { max_tick_rate: self.max_tick_rate }
    }
}

} // verus!
