//! Verified core of a distributed resource monitor: per-machine metric
//! histories, the MAC/user roster, ARP table parsing and the presence
//! bookkeeping that turns network scans into per-grade head counts.

pub mod text;
pub mod table;
pub mod agent;
pub mod api;
pub mod network;
pub mod state;
pub mod presence;
pub mod route;
pub mod shared;
