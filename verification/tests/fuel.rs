use avio23::fuel::{FuelActuators, NoiseGenerator, Tank, ValvePositions, NOISE_SEED};

#[test]
fn valves_start_left_and_right() {
    let v = ValvePositions::new();
    assert_eq!(v.current_source(), Tank::Left);
    assert_eq!(v.current_fill(), Tank::Right);
    let a: FuelActuators = v.actuators();
    assert_eq!(a.pump_source, Tank::Left);
    assert_eq!(a.fill_target, Tank::Right);
    assert!(!a.refueling_active);
}

#[test]
fn commit_reports_pump_valve_switches() {
    let mut v = ValvePositions::new();
    assert!(!v.commit(Tank::Left, Tank::Left));
    assert_eq!(v.current_fill(), Tank::Left);
    assert!(v.commit(Tank::Right, Tank::Left));
    assert_eq!(v.current_source(), Tank::Right);
    assert!(!v.commit(Tank::Right, Tank::Right));
    assert!(v.commit(Tank::Left, Tank::Right));
}

#[test]
fn refueling_indicator() {
    let mut v = ValvePositions::new();
    v.set_refueling(true);
    assert!(v.actuators().refueling_active);
    v.commit(Tank::Right, Tank::Left);
    let a = v.actuators();
    assert!(a.refueling_active);
    assert_eq!(a.pump_source, Tank::Right);
    assert_eq!(a.fill_target, Tank::Left);
    v.set_refueling(false);
    assert!(!v.actuators().refueling_active);
}

#[test]
fn noise_generator_sequence() {
    let mut g = NoiseGenerator::new();
    assert_eq!(g.state, NOISE_SEED);
    assert_eq!(g.next_bits(), 2781894);
    assert_eq!(g.state, 712164981);
    assert_eq!(g.next_bits(), 8438437);
    assert_eq!(g.next_bits(), 7929656);
    assert_eq!(g.state, 2029992047);
}
