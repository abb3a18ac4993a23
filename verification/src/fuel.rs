//! Fuel system: tanks, valve commands and the valve bookkeeping of the
//! fuel controller partition.

use vstd::prelude::*;

verus! {

/// Which fuel tank a valve is connected to.
#[derive(Clone, Copy, Debug, PartialEq, Eq, Structural)]
pub enum Tank {
    Left,
    Right,
}

/// Actuator commands the controller produces every frame.
#[derive(Clone, Copy, Debug)]
pub struct FuelActuators {
    pub pump_source: Tank,
    pub fill_target: Tank,
    pub refueling_active: bool,
}

/// The valve positions that the fuel controller keeps between frames,
/// and the refueling indicator it reports.
#[derive(Clone, Copy, Debug)]
pub struct ValvePositions {
    pub source: Tank,
    pub fill: Tank,
    pub refueling: bool,
}

/// The valves after `commit`: both moved to the chosen tanks, the
/// refueling indicator untouched.
pub open spec fn committed(v: ValvePositions, source: Tank, fill: Tank) -> ValvePositions {
    ValvePositions { source, fill, refueling: v.refueling }
}

/// Committing the tanks the valves already sit at changes nothing and is
/// no switch: so a selection repeated in the next frame never moves the
/// pump valve again.
pub proof fn repeated_selection_is_no_switch(v: ValvePositions, source: Tank, fill: Tank)
    ensures
        committed(committed(v, source, fill), source, fill) == committed(v, source, fill),
        committed(v, source, fill).source == source,
{
}

/// Committing moves the pump valve to the chosen source tank and the fill
/// valve to the chosen fill tank, and leaves the refueling indicator as
/// it was.
pub proof fn commit_moves_both_valves(v: ValvePositions, source: Tank, fill: Tank)
    ensures
        committed(v, source, fill).source == source,
        committed(v, source, fill).fill == fill,
        committed(v, source, fill).refueling == v.refueling,
{
}

impl ValvePositions {
    /// At start the pump draws from the left tank, refuel is routed to
    /// the right tank, and no refueling is in progress.
    pub fn new() -> (r: Self)
        ensures
            r.source == Tank::Left,
            r.fill == Tank::Right,
            !r.refueling,
    {
        ValvePositions { source: Tank::Left, fill: Tank::Right, refueling: false }
    }

    /// Turns the refueling indicator on or off.
    pub fn set_refueling(&mut self, on: bool)
        ensures
            final(self).refueling == on,
            final(self).source == old(self).source,
            final(self).fill == old(self).fill,
    {
        self.refueling = on;
    }

    /// The tank the pump valve is connected to.
    pub fn current_source(&self) -> (t: Tank)
        ensures
            t == self.source,
    {
        self.source
    }

    /// The tank the fill valve is connected to.
    pub fn current_fill(&self) -> (t: Tank)
        ensures
            t == self.fill,
    {
        self.fill
    }

    /// Moves the valves to the tanks chosen for this frame; tells whether
    /// the pump valve moved.
    pub fn commit(&mut self, source: Tank, fill: Tank) -> (switched: bool)
        ensures
            *final(self) == committed(*old(self), source, fill),
            switched == (source != old(self).source),
    {
        let switched = source != self.source;
        if switched {
            self.source = source;
        }
        self.fill = fill;
        switched
    }

    /// The commands that drive the valves and the refueling indicator.
    pub fn actuators(&self) -> (a: FuelActuators)
        ensures
            a.pump_source == self.source,
            a.fill_target == self.fill,
            a.refueling_active == self.refueling,
    {
        FuelActuators { pump_source: self.source, fill_target: self.fill, refueling_active: self.refueling }
    }
}

/// The seed of the sensor-noise generator of a flight scenario.
pub const NOISE_SEED: u32 = 0xC0FFEE;

/// One step of the noise generator: `state * 1664525 + 1013904223`,
/// modulo 2^32.
pub open spec fn noise_step(state: u32) -> u32 {
    ((state as nat * 1664525 + 1013904223) % 0x1_0000_0000) as u32
}

/// The linear congruential generator behind a scenario's sensor noise.
#[derive(Clone, Copy, Debug)]
pub struct NoiseGenerator {
    pub state: u32,
}

proof fn lemma_noise_step(state: u32)
    ensures
        ({
            let a = ((state as nat * 1664525) % 0x1_0000_0000) as u32;
            let b = if a + 1013904223 > u32::MAX {
                (a + 1013904223 - 0x1_0000_0000) as u32
            } else {
                (a + 1013904223) as u32
            };
            b == noise_step(state)
        }),
{
    let x = state as nat * 1664525;
    vstd::arithmetic::div_mod::lemma_add_mod_noop(x as int, 1013904223, 0x1_0000_0000);
    vstd::arithmetic::div_mod::lemma_mod_bound(x as int, 0x1_0000_0000);
    let a = x % 0x1_0000_0000;
    assert(0 <= a < 0x1_0000_0000);
    let y: int = a as int + 1013904223;
    let m: int = 0x1_0000_0000;
    assert(y >= m ==> y % m == y - m) by (nonlinear_arith)
        requires
            0 <= y < 2 * m,
            m == 0x1_0000_0000,
    ;
    assert(y < m ==> y % m == y) by (nonlinear_arith)
        requires
            0 <= y,
            m == 0x1_0000_0000,
    ;
}

impl NoiseGenerator {
    /// A generator at the scenario seed.
    pub fn new() -> (g: Self)
        ensures
            g.state == NOISE_SEED,
    {
        NoiseGenerator { state: NOISE_SEED }
    }

    /// Advances the generator and gives the top 24 bits of its new state.
    pub fn next_bits(&mut self) -> (bits: u32)
        ensures
            final(self).state == noise_step(old(self).state),
            bits == final(self).state / 256,
            bits < 0x100_0000,
    {
        proof {
            lemma_noise_step(self.state);
        }
        let next = self.state.wrapping_mul(1664525).wrapping_add(1013904223);
        self.state = next;
        let bits = next >> 8;
        assert(bits == next / 256 && bits < 0x100_0000) by (bit_vector)
            requires
                bits == next >> 8,
        ;
        bits
    }
}

} // verus!
