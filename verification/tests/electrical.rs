use avio23::electrical::{combine_reports, generator_status, load_shed_status, merge_report, CpiomEToIom};

fn report(g1: bool, g2: bool, tie: bool, shed: bool, charging: bool) -> CpiomEToIom {
    CpiomEToIom {
        gen1_online: g1,
        gen2_online: g2,
        bus_tie_closed: tie,
        load_shed_active: shed,
        battery_charging: charging,
    }
}

#[test]
fn both_generators_healthy() {
    assert_eq!(generator_status(true, true, true), report(true, true, true, false, true));
    assert_eq!(generator_status(true, true, false), report(true, true, true, false, false));
}

#[test]
fn one_generator_lost() {
    assert_eq!(generator_status(true, false, true), report(true, false, false, true, true));
    assert_eq!(generator_status(false, true, false), report(false, true, false, true, false));
}

#[test]
fn both_generators_lost() {
    assert_eq!(generator_status(false, false, true), report(false, false, false, true, false));
}

#[test]
fn load_shedding_partition() {
    assert_eq!(load_shed_status(true, true), CpiomEToIom::default());
    assert_eq!(load_shed_status(true, false), report(false, false, false, true, false));
    for (g1, g2) in [(true, true), (true, false), (false, true), (false, false)] {
        assert_eq!(
            load_shed_status(g1, g2).load_shed_active,
            generator_status(g1, g2, true).load_shed_active
        );
        let g = generator_status(g1, g2, true);
        assert_eq!(g.bus_tie_closed, !g.load_shed_active);
    }
}

#[test]
fn gateway_combines_valid_ports() {
    assert_eq!(combine_reports(None, None), None);
    let g = generator_status(true, false, true);
    let s = load_shed_status(true, false);
    assert_eq!(combine_reports(Some(g), None), Some(report(true, false, false, false, true)));
    assert_eq!(combine_reports(None, Some(s)), Some(report(false, false, false, true, false)));
    assert_eq!(combine_reports(Some(g), Some(s)), Some(g));
}

#[test]
fn simulation_gateway_merges_reports() {
    let mut state = CpiomEToIom::default();
    merge_report(&mut state, &report(true, true, true, false, false));
    assert_eq!(state, report(true, true, true, false, false));
    merge_report(&mut state, &report(true, false, false, true, true));
    assert_eq!(state, report(true, false, false, true, true));
    // load shedding is latched while some generator is online
    merge_report(&mut state, &report(true, true, true, false, false));
    assert_eq!(state, report(true, true, true, true, false));
    // a report with nothing set clears the latch but keeps the status
    merge_report(&mut state, &CpiomEToIom::default());
    assert_eq!(state, report(true, true, true, false, false));
    let once = state;
    merge_report(&mut state, &report(false, true, false, true, false));
    let mut twice = state;
    merge_report(&mut twice, &report(false, true, false, true, false));
    assert_eq!(state, twice);
    assert_ne!(once, state);
}
