use snapshot_interpolation::InterpolationSet;
use snapshot_interpolation::SnapshotInterpolationPlugin;
use snapshot_interpolation::interpolation::BlendFactor;
use snapshot_interpolation::interpolation::Interpolate;
use snapshot_interpolation::interpolation::InterpolationState;
use snapshot_interpolation::interpolation::Position2;
use snapshot_interpolation::interpolation::SCALAR_LIMIT;
use snapshot_interpolation::interpolation::ScalarValue;
use snapshot_interpolation::interpolation::SnapshotBuffer;
use snapshot_interpolation::interpolation::interpolation_delay_millis;
use snapshot_interpolation::interpolation::interpolation_state;
use snapshot_interpolation::interpolation::target_tick;

#[test]
fn blend_boundary_scalar() {
    let a = ScalarValue(3);
    let b = ScalarValue(11);
    assert_eq!(a.interpolate(&b, &BlendFactor::clamped(0, 1)), a);
    assert_eq!(a.interpolate(&b, &BlendFactor::clamped(1, 1)), b);
    let c = ScalarValue(-40);
    assert_eq!(b.interpolate(&c, &BlendFactor::clamped(0, 7)), b);
    assert_eq!(b.interpolate(&c, &BlendFactor::clamped(7, 7)), c);
}

#[test]
fn blend_boundary_record() {
    let a = Position2 { x: ScalarValue(-5), y: ScalarValue(9) };
    let b = Position2 { x: ScalarValue(20), y: ScalarValue(-1) };
    assert_eq!(a.interpolate(&b, &BlendFactor::clamped(0, 4)), a);
    assert_eq!(a.interpolate(&b, &BlendFactor::clamped(4, 4)), b);
}

#[test]
fn blend_midpoints() {
    let a = ScalarValue(0);
    let b = ScalarValue(10);
    assert_eq!(a.interpolate(&b, &BlendFactor::clamped(1, 2)), ScalarValue(5));
    assert_eq!(a.interpolate(&b, &BlendFactor::clamped(1, 4)), ScalarValue(2));
    let down = ScalarValue(10).interpolate(&ScalarValue(0), &BlendFactor::clamped(3, 10));
    assert_eq!(down, ScalarValue(7));
    let neg = ScalarValue(-10).interpolate(&ScalarValue(10), &BlendFactor::clamped(1, 4));
    assert_eq!(neg, ScalarValue(-5));
}

#[test]
fn clamped_factor_caps_at_one() {
    let t = BlendFactor::clamped(9, 5);
    assert_eq!(t.num, 5);
    assert_eq!(t.den, 5);
    let a = ScalarValue(2);
    let b = ScalarValue(8);
    assert_eq!(a.interpolate(&b, &t), b);
}

#[test]
fn blendable_bounds() {
    let inside = ScalarValue(SCALAR_LIMIT);
    let outside = ScalarValue(SCALAR_LIMIT + 1);
    assert!(inside.check_blendable(&inside));
    assert!(!inside.check_blendable(&outside));
    assert!(!outside.check_blendable(&inside));
}

#[test]
fn monotonic_smoothness() {
    let mut b: SnapshotBuffer<ScalarValue> = SnapshotBuffer::new(8);
    b.insert(0, ScalarValue(0));
    b.insert(10, ScalarValue(10));
    for t in 0..=10u64 {
        let v = b.interpolated_value(t, ScalarValue(-1));
        assert_eq!(v, ScalarValue(t as i64));
    }
}

#[test]
fn graceful_degradation_single_entry() {
    let mut b: SnapshotBuffer<ScalarValue> = SnapshotBuffer::new(8);
    b.insert(5, ScalarValue(7));
    for t in [0u64, 4, 5, 6, 9, 100, u64::MAX] {
        assert_eq!(b.interpolated_value(t, ScalarValue(-1)), ScalarValue(7));
    }
}

#[test]
fn empty_buffer_returns_fallback() {
    let b: SnapshotBuffer<ScalarValue> = SnapshotBuffer::new(8);
    assert_eq!(b.interpolated_value(3, ScalarValue(42)), ScalarValue(42));
    assert_eq!(b.render_value(2, ScalarValue(42)), ScalarValue(42));
}

#[test]
fn out_of_range_holds_nearest_value() {
    let mut b: SnapshotBuffer<ScalarValue> = SnapshotBuffer::new(8);
    b.insert(10, ScalarValue(1));
    b.insert(20, ScalarValue(2));
    assert_eq!(b.interpolated_value(5, ScalarValue(-1)), ScalarValue(1));
    assert_eq!(b.interpolated_value(25, ScalarValue(-1)), ScalarValue(2));
}

#[test]
fn delay_formula() {
    let plugin = SnapshotInterpolationPlugin { max_tick_rate: 20 };
    let config = plugin.config();
    assert_eq!(config.max_tick_rate, 20);
    assert_eq!(interpolation_delay_millis(&config, 2), 100);
    let plugin = SnapshotInterpolationPlugin { max_tick_rate: 60 };
    assert_eq!(interpolation_delay_millis(&plugin.config(), 3), 50);
    let plugin = SnapshotInterpolationPlugin { max_tick_rate: 7 };
    assert_eq!(interpolation_delay_millis(&plugin.config(), 1), 142);
}

#[test]
fn target_tick_saturates() {
    assert_eq!(target_tick(102, 2), 100);
    assert_eq!(target_tick(1, 5), 0);
    assert_eq!(target_tick(5, 5), 0);
}

#[test]
fn interpolation_state_progression() {
    let mut slot: Option<SnapshotBuffer<ScalarValue>> = None;
    assert_eq!(interpolation_state(&slot), InterpolationState::Uninitialized);
    slot = Some(SnapshotBuffer::new(8));
    assert_eq!(interpolation_state(&slot), InterpolationState::Buffering);
    if let Some(b) = &mut slot {
        b.insert(1, ScalarValue(1));
    }
    assert_eq!(interpolation_state(&slot), InterpolationState::Buffering);
    if let Some(b) = &mut slot {
        b.insert(2, ScalarValue(2));
    }
    assert_eq!(interpolation_state(&slot), InterpolationState::Interpolating);
}

#[test]
fn end_to_end_render() {
    // Tick rate 20 with delay multiplier 2: a render lag of 0.1 s.
    let plugin = SnapshotInterpolationPlugin { max_tick_rate: 20 };
    let config = plugin.config();
    assert_eq!(interpolation_delay_millis(&config, 2), 100);
    let mut b: SnapshotBuffer<ScalarValue> = SnapshotBuffer::new(8);
    b.insert(100, ScalarValue(0));
    b.insert(101, ScalarValue(1));
    b.insert(102, ScalarValue(2));
    // Latest received is 102, so the target is 100 and the displayed value
    // is exactly the snapshot received at tick 100.
    let target = target_tick(102, 2);
    assert_eq!(target, 100);
    assert_eq!(b.interpolated_value(target, ScalarValue(-1)), ScalarValue(0));
    assert_eq!(b.render_value(2, ScalarValue(-1)), ScalarValue(0));
    // Half a tick later the displayed value sits between the snapshots.
    assert_eq!(b.interpolated_value(101, ScalarValue(-1)), ScalarValue(1));
}

#[test]
fn phases_are_distinct() {
    assert_ne!(InterpolationSet::Init, InterpolationSet::Interpolate);
}

#[test]
fn record_interpolation_runs_per_field() {
    let mut b: SnapshotBuffer<Position2> = SnapshotBuffer::new(4);
    b.insert(0, Position2 { x: ScalarValue(0), y: ScalarValue(100) });
    b.insert(10, Position2 { x: ScalarValue(10), y: ScalarValue(0) });
    let fallback = Position2 { x: ScalarValue(-1), y: ScalarValue(-1) };
    let v = b.interpolated_value(4, fallback);
    assert_eq!(v, Position2 { x: ScalarValue(4), y: ScalarValue(60) });
}
