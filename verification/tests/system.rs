use glam::DVec3;
use gravity::system::SystemState;

#[test]
fn test_add_body_integrity() {
    let mut system = SystemState::new(100);
    assert_eq!(system.masses.len(), 0);

    system.add_body(1.0, DVec3::ZERO, DVec3::ZERO);
    assert_eq!(system.masses.len(), 1);
    assert_eq!(system.positions.len(), 1);
    assert_eq!(system.velocities.len(), 1);
    assert_eq!(system.accelerations.len(), 1);
    assert_eq!(system.history.len(), 1);

    system.add_body(2.0, DVec3::ONE, DVec3::ONE);
    assert_eq!(system.masses.len(), 2);
    assert_eq!(system.positions.len(), 2);
    assert_eq!(system.velocities.len(), 2);
    assert_eq!(system.accelerations.len(), 2);
    assert_eq!(system.history.len(), 2);
}

#[test]
fn test_history_recording() {
    let trail_length = 100;
    let mut system = SystemState::new(trail_length);
    system.add_body(1.0, DVec3::ZERO, DVec3::ZERO);

    for _ in 0..(trail_length + 10) {
        system.record_history();
    }

    assert_eq!(system.history[0].len(), trail_length);
}

#[test]
fn add_body_stores_values_and_zero_acceleration() {
    let mut system: SystemState<f64, DVec3> = SystemState::new(5);
    system.add_body(3.0, DVec3::new(1.0, 2.0, 3.0), DVec3::new(-1.0, 0.5, 0.0));
    assert_eq!(system.masses[0], 3.0);
    assert_eq!(system.positions[0], DVec3::new(1.0, 2.0, 3.0));
    assert_eq!(system.velocities[0], DVec3::new(-1.0, 0.5, 0.0));
    assert_eq!(system.accelerations[0], DVec3::ZERO);
    assert!(system.history[0].is_empty());
    assert_eq!(system.trail_length, 5);
}

#[test]
fn history_keeps_most_recent_positions_in_order() {
    let mut system: SystemState<f64, DVec3> = SystemState::new(3);
    system.add_body(1.0, DVec3::ZERO, DVec3::ZERO);
    system.add_body(1.0, DVec3::ONE, DVec3::ZERO);
    for k in 0..5 {
        system.positions[0] = DVec3::new(k as f64, 0.0, 0.0);
        system.record_history();
    }
    let trail: Vec<DVec3> = system.history[0].iter().copied().collect();
    assert_eq!(
        trail,
        vec![DVec3::new(2.0, 0.0, 0.0), DVec3::new(3.0, 0.0, 0.0), DVec3::new(4.0, 0.0, 0.0)]
    );
    let other: Vec<DVec3> = system.history[1].iter().copied().collect();
    assert_eq!(other, vec![DVec3::ONE, DVec3::ONE, DVec3::ONE]);
}

#[test]
fn history_grows_until_full() {
    let mut system: SystemState<f64, DVec3> = SystemState::new(4);
    system.add_body(1.0, DVec3::ZERO, DVec3::ZERO);
    system.record_history();
    system.record_history();
    assert_eq!(system.history[0].len(), 2);
    assert_eq!(*system.history[0].back().unwrap(), DVec3::ZERO);
}

#[test]
fn zero_trail_length_records_nothing() {
    let mut system: SystemState<f64, DVec3> = SystemState::new(0);
    system.add_body(1.0, DVec3::ONE, DVec3::ZERO);
    system.record_history();
    system.record_history();
    assert_eq!(system.history[0].len(), 0);
}

#[test]
fn record_history_leaves_bodies_unchanged() {
    let mut system: SystemState<f64, DVec3> = SystemState::new(2);
    system.add_body(7.0, DVec3::new(1.0, 1.0, 1.0), DVec3::new(2.0, 2.0, 2.0));
    system.record_history();
    assert_eq!(system.masses, vec![7.0]);
    assert_eq!(system.positions, vec![DVec3::new(1.0, 1.0, 1.0)]);
    assert_eq!(system.velocities, vec![DVec3::new(2.0, 2.0, 2.0)]);
    assert_eq!(system.accelerations, vec![DVec3::ZERO]);
}

#[test]
fn default_system_is_empty_without_trails() {
    let system: SystemState<f64, DVec3> = SystemState::default();
    assert!(system.masses.is_empty());
    assert!(system.positions.is_empty());
    assert!(system.velocities.is_empty());
    assert!(system.accelerations.is_empty());
    assert!(system.history.is_empty());
    assert_eq!(system.trail_length, 0);
}
