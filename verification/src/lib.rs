//! Avio23 integrated modular avionics: the validator of a CPM hypervisor
//! schedule, and the decision logic of the fuel, electrical and
//! landing-gear partitions and of the network gateway.

pub mod config;
pub mod electrical;
pub mod fuel;
pub mod gateway;
pub mod landing_gear;
pub mod text;
pub mod yaml;
