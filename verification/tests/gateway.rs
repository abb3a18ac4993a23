use avio23::gateway::{source_node, CpmNode, FrameClock};

#[test]
fn packets_are_routed_by_source_address() {
    assert_eq!(source_node([172, 20, 0, 3]), Some(CpmNode::LandingGear));
    assert_eq!(source_node([172, 20, 0, 4]), Some(CpmNode::Fuel));
    assert_eq!(source_node([172, 20, 0, 5]), Some(CpmNode::AirConditioning));
    assert_eq!(source_node([172, 20, 0, 6]), Some(CpmNode::Electrical));
    assert_eq!(source_node([172, 20, 0, 2]), None);
    assert_eq!(source_node([172, 20, 0, 7]), None);
    assert_eq!(source_node([10, 20, 0, 3]), None);
    assert_eq!(source_node([172, 21, 0, 4]), None);
}

#[test]
fn frame_clock_paces_phases_and_logging() {
    let mut c = FrameClock::new();
    assert!(c.log_due());
    assert_eq!(c.phase_frame(), 0);
    for _ in 0..25 {
        c.advance();
    }
    assert_eq!(c.cycle, 25);
    assert!(c.log_due());
    c.advance();
    assert!(!c.log_due());
    let mut late = FrameClock { cycle: 1999 };
    assert_eq!(late.phase_frame(), 999);
    late.advance();
    assert_eq!(late.phase_frame(), 0);
    let mut last = FrameClock { cycle: u32::MAX };
    last.advance();
    assert_eq!(last.cycle, 0);
}
