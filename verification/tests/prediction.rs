use snapshot_interpolation::NetworkOwner;
use snapshot_interpolation::interpolation::BlendFactor;
use snapshot_interpolation::interpolation::ScalarValue;
use snapshot_interpolation::interpolation::SnapshotBuffer;
use snapshot_interpolation::prediction::EntityMarkers;
use snapshot_interpolation::prediction::owner_prediction_init_system;
use snapshot_interpolation::prediction::reconcile;
use snapshot_interpolation::prediction::reconcile_owned;

#[test]
fn ownership_classification() {
    let local = 7u64;
    let mut owned = EntityMarkers::unmarked();
    owner_prediction_init_system(true, local, &NetworkOwner(7), &mut owned);
    assert!(owned.owner_predicted);
    assert!(owned.predicted);
    assert!(!owned.interpolated);

    let mut remote = EntityMarkers::unmarked();
    owner_prediction_init_system(true, local, &NetworkOwner(8), &mut remote);
    assert!(remote.interpolated);
    assert!(!remote.owner_predicted);
    assert!(!remote.predicted);
}

#[test]
fn classification_does_not_refire() {
    let mut markers = EntityMarkers::unmarked();
    owner_prediction_init_system(true, 7, &NetworkOwner(7), &mut markers);
    let classified = markers;
    // Re-observing the entity, even under another local identifier, is a
    // no-op once the markers are attached.
    owner_prediction_init_system(true, 9, &NetworkOwner(7), &mut markers);
    assert_eq!(markers, classified);
    owner_prediction_init_system(true, 7, &NetworkOwner(12), &mut markers);
    assert_eq!(markers, classified);
}

#[test]
fn classification_waits_for_connection() {
    let mut markers = EntityMarkers::unmarked();
    owner_prediction_init_system(false, 7, &NetworkOwner(7), &mut markers);
    assert_eq!(markers, EntityMarkers::unmarked());
    owner_prediction_init_system(true, 7, &NetworkOwner(7), &mut markers);
    assert!(markers.owner_predicted);
}

#[test]
fn reconcile_factor_one_snaps() {
    let current = ScalarValue(50);
    let authoritative = ScalarValue(10);
    let snapped = reconcile(current, authoritative, &BlendFactor::clamped(1, 1));
    assert_eq!(snapped, authoritative);
}

#[test]
fn reconcile_factor_zero_keeps_local() {
    let current = ScalarValue(50);
    let authoritative = ScalarValue(10);
    let kept = reconcile(current, authoritative, &BlendFactor::clamped(0, 4));
    assert_eq!(kept, current);
}

#[test]
fn reconcile_fractional_correction() {
    let current = ScalarValue(50);
    let authoritative = ScalarValue(10);
    let half = reconcile(current, authoritative, &BlendFactor::clamped(1, 2));
    assert_eq!(half, ScalarValue(30));
    let quarter = reconcile(current, authoritative, &BlendFactor::clamped(1, 4));
    assert_eq!(quarter, ScalarValue(40));
}

#[test]
fn reconcile_owned_uses_newest_snapshot() {
    let mut b: SnapshotBuffer<ScalarValue> = SnapshotBuffer::new(4);
    let current = ScalarValue(100);
    // No authoritative value has arrived: the local value stands.
    assert_eq!(reconcile_owned(&b, current, &BlendFactor::clamped(1, 1)), current);
    b.insert(10, ScalarValue(0));
    b.insert(20, ScalarValue(40));
    let snapped = reconcile_owned(&b, current, &BlendFactor::clamped(1, 1));
    assert_eq!(snapped, ScalarValue(40));
    let halfway = reconcile_owned(&b, current, &BlendFactor::clamped(1, 2));
    assert_eq!(halfway, ScalarValue(70));
}
