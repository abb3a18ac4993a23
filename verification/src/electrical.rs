//! Electrical domain (CPM-E): generator monitoring, load shedding, and how
//! the status reports of its partitions are combined and merged on their
//! way to the simulation gateway.

use vstd::prelude::*;

verus! {

/// The electrical status that CPM-E reports to the IOM.
#[derive(Clone, Copy, Debug, PartialEq, Eq, Structural)]
pub struct CpiomEToIom {
    pub gen1_online: bool,
    pub gen2_online: bool,
    pub bus_tie_closed: bool,
    pub load_shed_active: bool,
    pub battery_charging: bool,
}

/// The report with every flag off.
pub open spec fn empty_report() -> CpiomEToIom {
    CpiomEToIom {
        gen1_online: false,
        gen2_online: false,
        bus_tie_closed: false,
        load_shed_active: false,
        battery_charging: false,
    }
}

impl Default for CpiomEToIom {
    fn default() -> (r: Self)
        ensures
            r == empty_report(),
    {
        CpiomEToIom {
            gen1_online: false,
            gen2_online: false,
            bus_tie_closed: false,
            load_shed_active: false,
            battery_charging: false,
        }
    }
}

/// The generator control report: see `generator_status`.
pub open spec fn generator_report(gen1_ok: bool, gen2_ok: bool, battery_below_limit: bool) -> CpiomEToIom {
    CpiomEToIom {
        gen1_online: gen1_ok,
        gen2_online: gen2_ok,
        bus_tie_closed: gen1_ok && gen2_ok,
        load_shed_active: !gen1_ok || !gen2_ok,
        battery_charging: battery_below_limit && (gen1_ok || gen2_ok),
    }
}

/// The load shedding report: see `load_shed_status`.
pub open spec fn load_shed_report(gen1_ok: bool, gen2_ok: bool) -> CpiomEToIom {
    CpiomEToIom { load_shed_active: !gen1_ok || !gen2_ok, ..empty_report() }
}

/// What the generator control partition reports, given whether each
/// generator's voltage lies in its nominal band and whether the battery
/// is below its charge limit: the bus tie closes when both generators
/// are healthy, loads are shed when either is not, and the battery
/// charges while below its limit and some generator is online.
pub fn generator_status(gen1_ok: bool, gen2_ok: bool, battery_below_limit: bool) -> (r: CpiomEToIom)
    ensures
        r == generator_report(gen1_ok, gen2_ok, battery_below_limit),
{
    let bus_tie = gen1_ok && gen2_ok;
    let shed = !gen1_ok || !gen2_ok;
    CpiomEToIom {
        gen1_online: gen1_ok,
        gen2_online: gen2_ok,
        bus_tie_closed: bus_tie,
        load_shed_active: shed,
        battery_charging: battery_below_limit && (gen1_ok || gen2_ok),
    }
}

/// What the load shedding partition reports: only whether loads are shed,
/// which they are when either generator is outside its nominal band.
pub fn load_shed_status(gen1_ok: bool, gen2_ok: bool) -> (r: CpiomEToIom)
    ensures
        r == load_shed_report(gen1_ok, gen2_ok),
{
    let mut r = CpiomEToIom::default();
    r.load_shed_active = !gen1_ok || !gen2_ok;
    r
}

/// The combined report: see `combine_reports`.
pub open spec fn combined_report(generators: Option<CpiomEToIom>, shedding: Option<CpiomEToIom>) -> Option<CpiomEToIom> {
    if generators is None && shedding is None {
        None
    } else {
        let g = match generators {
            Some(g) => g,
            None => empty_report(),
        };
        Some(
            CpiomEToIom {
                load_shed_active: shedding matches Some(s) && s.load_shed_active,
                ..CpiomEToIom { load_shed_active: false, ..g }
            },
        )
    }
}

/// The report the CPM-E gateway sends on, from the valid readings of the
/// generator port and of the load shedding port: generator, bus tie and
/// battery flags from the first, the load shedding flag from the second,
/// and nothing when neither port had valid data.
pub fn combine_reports(generators: Option<CpiomEToIom>, shedding: Option<CpiomEToIom>) -> (r: Option<CpiomEToIom>)
    ensures
        r == combined_report(generators, shedding),
{
    let mut combined = CpiomEToIom::default();
    let mut has_data = false;
    if let Some(g) = generators {
        combined.gen1_online = g.gen1_online;
        combined.gen2_online = g.gen2_online;
        combined.bus_tie_closed = g.bus_tie_closed;
        combined.battery_charging = g.battery_charging;
        has_data = true;
    }
    if let Some(s) = shedding {
        combined.load_shed_active = s.load_shed_active;
        has_data = true;
    }
    if has_data {
        Some(combined)
    } else {
        None
    }
}

/// The state after `merge_report`.
pub open spec fn merged(state: CpiomEToIom, update: CpiomEToIom) -> CpiomEToIom {
    let any_status = update.gen1_online || update.gen2_online || update.bus_tie_closed
        || update.battery_charging;
    let s = if any_status {
        CpiomEToIom { load_shed_active: state.load_shed_active, ..update }
    } else {
        state
    };
    CpiomEToIom {
        load_shed_active: if update.load_shed_active {
            true
        } else if !update.gen1_online && !update.gen2_online {
            false
        } else {
            s.load_shed_active
        },
        ..s
    }
}

/// How the simulation gateway folds a report from CPM-E into the state it
/// keeps: a report with some generator online, the bus tie closed or the
/// battery charging replaces the four status flags; load shedding, once
/// reported, stays on until a report has both generators offline and no
/// load shedding.
pub fn merge_report(state: &mut CpiomEToIom, update: &CpiomEToIom)
    ensures
        *final(state) == merged(*old(state), *update),
{
    if update.gen1_online || update.gen2_online || update.bus_tie_closed || update.battery_charging {
        state.gen1_online = update.gen1_online;
        state.gen2_online = update.gen2_online;
        state.bus_tie_closed = update.bus_tie_closed;
        state.battery_charging = update.battery_charging;
    }
    if update.load_shed_active {
        state.load_shed_active = true;
    } else if !update.gen1_online && !update.gen2_online {
        state.load_shed_active = false;
    }
}

/// The generator monitor closes the bus tie exactly when it does not shed
/// loads.
pub proof fn bus_tie_closed_iff_no_load_shedding(gen1_ok: bool, gen2_ok: bool, battery_below_limit: bool)
    ensures
        generator_report(gen1_ok, gen2_ok, battery_below_limit).bus_tie_closed
            == !generator_report(gen1_ok, gen2_ok, battery_below_limit).load_shed_active,
{
}

/// The generator control partition and the load shedding partition agree
/// on whether loads are shed.
pub proof fn partitions_agree_on_load_shedding(gen1_ok: bool, gen2_ok: bool, battery_below_limit: bool)
    ensures
        load_shed_report(gen1_ok, gen2_ok).load_shed_active == generator_report(
            gen1_ok,
            gen2_ok,
            battery_below_limit,
        ).load_shed_active,
{
}

/// Merging the same report twice leaves the gateway's state as merging it
/// once.
pub proof fn merge_is_idempotent(state: CpiomEToIom, update: CpiomEToIom)
    ensures
        merged(merged(state, update), update) == merged(state, update),
{
}

/// When the CPM-E gateway combines the reports of both of its partitions
/// and some generator is healthy, the simulation gateway's state after
/// merging shows the generators, bus tie and battery exactly as the
/// generator monitor reported them, whatever it held before; and load
/// shedding, when reported, is shown.
pub proof fn gateway_round_trip_keeps_generator_status(
    state: CpiomEToIom,
    gen1_ok: bool,
    gen2_ok: bool,
    battery_below_limit: bool,
)
    requires
        gen1_ok || gen2_ok,
    ensures
        ({
            let g = generator_report(gen1_ok, gen2_ok, battery_below_limit);
            let l = load_shed_report(gen1_ok, gen2_ok);
            let c = combined_report(Some(g), Some(l));
            &&& c is Some
            &&& merged(state, c->0).gen1_online == g.gen1_online
            &&& merged(state, c->0).gen2_online == g.gen2_online
            &&& merged(state, c->0).bus_tie_closed == g.bus_tie_closed
            &&& merged(state, c->0).battery_charging == g.battery_charging
            &&& (l.load_shed_active ==> merged(state, c->0).load_shed_active)
        }),
{
}

/// The generator monitor reports each generator as online exactly when it
/// is healthy; it closes the bus tie exactly when both are, sheds loads
/// exactly when either is not, and charges the battery exactly when it is
/// below its limit and at least one generator is online.
pub proof fn generator_report_follows_generators(gen1_ok: bool, gen2_ok: bool, battery_below_limit: bool)
    ensures
        ({
            let r = generator_report(gen1_ok, gen2_ok, battery_below_limit);
            &&& r.gen1_online == gen1_ok
            &&& r.gen2_online == gen2_ok
            &&& r.bus_tie_closed <==> (gen1_ok && gen2_ok)
            &&& r.load_shed_active <==> (!gen1_ok || !gen2_ok)
            &&& r.battery_charging <==> (battery_below_limit && (gen1_ok || gen2_ok))
            &&& (!gen1_ok && !gen2_ok ==> !r.battery_charging)
        }),
{
}

/// Load shedding, once on in the gateway's state, is latched: a merge turns
/// it on whenever the report sheds loads; it turns it off only when the
/// report sheds none and has both generators offline; and a report that
/// sheds none but has some generator online keeps the flag as it was.
/// The four status flags are taken from a report that has any of them
/// set, and otherwise kept.
pub proof fn merge_latches_load_shedding(state: CpiomEToIom, update: CpiomEToIom)
    ensures
        ({
            let m = merged(state, update);
            let any_status = update.gen1_online || update.gen2_online || update.bus_tie_closed
                || update.battery_charging;
            &&& update.load_shed_active ==> m.load_shed_active
            &&& !m.load_shed_active ==> (!state.load_shed_active || (!update.load_shed_active
                && !update.gen1_online && !update.gen2_online))
            &&& (!update.load_shed_active && (update.gen1_online || update.gen2_online))
                ==> m.load_shed_active == state.load_shed_active
            &&& (!update.load_shed_active && !update.gen1_online && !update.gen2_online)
                ==> !m.load_shed_active
            &&& any_status ==> (m.gen1_online == update.gen1_online && m.gen2_online
                == update.gen2_online && m.bus_tie_closed == update.bus_tie_closed
                && m.battery_charging == update.battery_charging)
            &&& !any_status ==> (m.gen1_online == state.gen1_online && m.gen2_online
                == state.gen2_online && m.bus_tie_closed == state.bus_tie_closed
                && m.battery_charging == state.battery_charging)
        }),
{
}

/// The CPM-E gateway passes the generator, bus tie and battery flags of the
/// generator port on unchanged, takes load shedding from the shedding port
/// alone, and sends nothing only when neither port had valid data.
pub proof fn combined_report_takes_each_flag_from_its_port(
    generators: Option<CpiomEToIom>,
    shedding: Option<CpiomEToIom>,
)
    ensures
        combined_report(generators, shedding) is None <==> (generators is None && shedding is None),
        combined_report(generators, shedding) matches Some(c) ==> ({
            &&& c.load_shed_active <==> (shedding matches Some(s) && s.load_shed_active)
            &&& (generators matches Some(g) ==> (c.gen1_online == g.gen1_online && c.gen2_online
                == g.gen2_online && c.bus_tie_closed == g.bus_tie_closed && c.battery_charging
                == g.battery_charging))
            &&& (generators is None ==> !c.gen1_online && !c.gen2_online && !c.bus_tie_closed
                && !c.battery_charging)
        }),
{
}

} // verus!
