//! Per-access-point fingerprints of 802.11 beacon frames, and a tracker that
//! flags transmitters whose fingerprint changes between beacons.

pub mod element;
pub mod tracker;
pub mod beacon;
