//! Ownership classification and reconciliation for locally owned entities.
//!
//! A replicated entity whose [`crate::NetworkOwner`] matches the local client
//! identifier is simulated ahead locally and marked owner-predicted; every
//! other replicated entity is marked interpolated.  Owned entities are
//! corrected toward the newest authoritative value instead of being
//! interpolated between two historical snapshots.

use vstd::prelude::*;

use crate::NetworkOwner;
use crate::interpolation::BlendFactor;
use crate::interpolation::Interpolate;
use crate::interpolation::SnapshotBuffer;

verus! {

/// Classification facts attached to a replicated entity.
#[derive(Clone, Copy, PartialEq, Eq, Structural, Debug)]
pub struct EntityMarkers {
    /// Rendered by the interpolation engine: a remote entity.
    pub interpolated: bool,
    /// Simulated locally and reconciled against the server: an owned entity.
    pub owner_predicted: bool,
    /// Under prediction of any kind; set together with `owner_predicted`.
    pub predicted: bool,
}

impl EntityMarkers {
    /// An entity not yet observed by the classification step.
    pub fn unmarked() -> (r: Self)
        ensures
            r == (EntityMarkers { interpolated: false, owner_predicted: false, predicted: false }),
    {
        EntityMarkers { interpolated: false, owner_predicted: false, predicted: false }
    }

    /// Whether the one-shot classification has already run for the entity.
    pub open spec fn classified(self) -> bool {
        self.interpolated || self.owner_predicted
    }

    /// Whether the one-shot classification has already run for the entity.
    pub fn is_classified(&self) -> (r: bool)
        ensures
            r == self.classified(),
    {
        self.interpolated || self.owner_predicted
    }
}

/// One-shot ownership classification for a newly observed replicated entity.
///
/// Runs only while the client is connected.  An entity owned by the local
/// client is marked owner-predicted (and predicted); an entity owned by any
/// other client is marked interpolated.  An already classified entity is left
/// untouched, so the classification never re-fires.
pub fn owner_prediction_init_system(
    connected: bool,
    local_client: u64,
    owner: &NetworkOwner,
    markers: &mut EntityMarkers,
)
    ensures
        !connected || old(markers).classified() ==> *final(markers) == *old(markers),
        connected && !old(markers).classified() && owner.0 == local_client ==> *final(markers)
            == (EntityMarkers { interpolated: false, owner_predicted: true, predicted: true }),
        connected && !old(markers).classified() && owner.0 != local_client ==> *final(markers)
            == (EntityMarkers {
            interpolated: true,
            owner_predicted: false,
            predicted: old(markers).predicted,
        }),
{
    if !connected {
        return ;
    }
    if markers.is_classified() {
        return ;
    }
    if owner.0 == local_client {
        markers.interpolated = false;
        markers.owner_predicted = true;
        markers.predicted = true;
    } else {
        markers.interpolated = true;
        markers.owner_predicted = false;
    }
}

/// One reconciliation step for an owned entity: the locally simulated value
/// is blended toward the authoritative value at the correction factor.  A
/// factor of 1 snaps to the authoritative value; a factor of 0 keeps the
/// local value; a fractional factor spreads the correction over frames.
pub fn reconcile<V: Interpolate>(current: V, authoritative: V, correction: &BlendFactor) -> (r: V)
    requires
        current.blendable(authoritative),
        correction.valid(),
    ensures
        r == current.blend_spec(authoritative, correction.num as int, correction.den as int),
        correction.num == correction.den ==> r == authoritative,
        correction.num == 0 ==> r == current,
{
    proof {
        current.lemma_blend_boundary(authoritative, correction.den as int);
    }
    current.interpolate(&authoritative, correction)
}

/// Reconciles an owned entity against its snapshot buffer: the newest
/// authoritative value is the correction target; with no authoritative value
/// yet, the locally simulated value stands unchanged.
pub fn reconcile_owned<V: Interpolate>(
    buffer: &SnapshotBuffer<V>,
    current: V,
    correction: &BlendFactor,
) -> (r: V)
    requires
        buffer.wf(),
        correction.valid(),
        forall|k: int| 0 <= k < buffer@.len() ==> current.blendable(#[trigger] buffer@[k].value),
    ensures
        buffer@.len() == 0 ==> r == current,
        buffer@.len() > 0 ==> r == current.blend_spec(
            buffer@.last().value,
            correction.num as int,
            correction.den as int,
        ),
{
    match buffer.newest() {
        Option::None => current,
        Option::Some(e) => {
            proof {
                assert(e.value == buffer@[buffer@.len() - 1].value);
            }
            reconcile(current, e.value, correction)
        },
    }
}

} // verus!
