//! The simulation gateway (IOM): which CPM a network packet comes from,
//! and the frame counter that paces its synthetic flight and telemetry log.

use vstd::prelude::*;

verus! {

/// The core processing modules on the AFDX network.
#[derive(Clone, Copy, Debug, PartialEq, Eq, Structural)]
pub enum CpmNode {
    LandingGear,
    Fuel,
    AirConditioning,
    Electrical,
}

/// The module at an IPv4 address of the avionics network: 172.20.0.3 to
/// 172.20.0.6 are CPM-L, CPM-F, CPM-A and CPM-E.
pub open spec fn node_at(ip: [u8; 4]) -> Option<CpmNode> {
    if ip[0] == 172 && ip[1] == 20 && ip[2] == 0 {
        if ip[3] == 3 {
            Some(CpmNode::LandingGear)
        } else if ip[3] == 4 {
            Some(CpmNode::Fuel)
        } else if ip[3] == 5 {
            Some(CpmNode::AirConditioning)
        } else if ip[3] == 6 {
            Some(CpmNode::Electrical)
        } else {
            None
        }
    } else {
        None
    }
}

/// The module a packet from the IPv4 address `ip` comes from, if any.
pub fn source_node(ip: [u8; 4]) -> (r: Option<CpmNode>)
    ensures
        r == node_at(ip),
{
    if ip[0] == 172 && ip[1] == 20 && ip[2] == 0 {
        if ip[3] == 3 {
            Some(CpmNode::LandingGear)
        } else if ip[3] == 4 {
            Some(CpmNode::Fuel)
        } else if ip[3] == 5 {
            Some(CpmNode::AirConditioning)
        } else if ip[3] == 6 {
            Some(CpmNode::Electrical)
        } else {
            None
        }
    } else {
        None
    }
}

/// Only the four CPM addresses of the avionics network name a module, and
/// each names its own: 172.20.0.3 is CPM-L, 172.20.0.4 CPM-F, 172.20.0.5
/// CPM-A and 172.20.0.6 CPM-E; any other address, on the same network or
/// not, is unknown.
pub proof fn only_cpm_addresses_name_a_module(ip: [u8; 4])
    ensures
        node_at(ip) is Some ==> (ip[0] == 172 && ip[1] == 20 && ip[2] == 0 && 3 <= ip[3] <= 6),
        (ip[0] == 172 && ip[1] == 20 && ip[2] == 0) ==> ({
            &&& (ip[3] == 3 <==> node_at(ip) == Some(CpmNode::LandingGear))
            &&& (ip[3] == 4 <==> node_at(ip) == Some(CpmNode::Fuel))
            &&& (ip[3] == 5 <==> node_at(ip) == Some(CpmNode::AirConditioning))
            &&& (ip[3] == 6 <==> node_at(ip) == Some(CpmNode::Electrical))
        }),
{
}

/// Frames in one synthetic flight phase.
pub const PHASE_FRAMES: u32 = 1000;

/// Frames between two telemetry log entries (one second of 40 ms frames).
pub const LOG_INTERVAL_FRAMES: u32 = 25;

/// The gateway's frame counter.
#[derive(Clone, Copy, Debug)]
pub struct FrameClock {
    pub cycle: u32,
}

impl FrameClock {
    /// A clock at frame 0.
    pub fn new() -> (c: Self)
        ensures
            c.cycle == 0,
    {
        FrameClock { cycle: 0 }
    }

    /// The frame's position in the current flight phase.
    pub fn phase_frame(&self) -> (f: u32)
        ensures
            f == self.cycle % PHASE_FRAMES,
            f < PHASE_FRAMES,
    {
        self.cycle % PHASE_FRAMES
    }

    /// Whether the telemetry is logged in this frame.
    pub fn log_due(&self) -> (b: bool)
        ensures
            b == (self.cycle % LOG_INTERVAL_FRAMES == 0),
    {
        self.cycle % LOG_INTERVAL_FRAMES == 0
    }

    /// Moves to the next frame; the counter wraps around at 2^32.
    pub fn advance(&mut self)
        ensures
            final(self).cycle == (old(self).cycle as nat + 1) % 0x1_0000_0000,
    {
        self.cycle = self.cycle.wrapping_add(1);
    }
}

} // verus!
