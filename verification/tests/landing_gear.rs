use avio23::landing_gear::next_gear_state;

#[test]
fn gear_extends_below_extension_speed() {
    assert!(next_gear_state(false, true, true));
    assert!(next_gear_state(true, true, true));
}

#[test]
fn gear_holds_while_too_fast() {
    assert!(!next_gear_state(false, true, false));
    assert!(next_gear_state(true, true, false));
}

#[test]
fn gear_retracts_when_lever_up() {
    assert!(!next_gear_state(true, false, true));
    assert!(!next_gear_state(true, false, false));
    assert!(!next_gear_state(false, false, true));
}

#[test]
fn gear_over_a_flight() {
    // (lever down, below extension speed) per frame
    let frames = [(true, false), (true, false), (true, true), (true, false), (false, false), (true, false)];
    let mut gear = false;
    let mut seen = Vec::new();
    for (lever, slow) in frames {
        gear = next_gear_state(gear, lever, slow);
        seen.push(gear);
    }
    assert_eq!(seen, vec![false, false, true, true, false, false]);
}
