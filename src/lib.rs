//! Discovery and tracking of Wii remotes: a registry of the devices seen so far
//! that rebinds known devices on every scan, and a bounded delivery channel
//! that hands newly found devices to a consumer without losing or reordering
//! any of them.

pub mod result;
pub mod registry;
pub mod delivery;
pub mod manager;
