//! NANOBYTE: wire format, mote model and ground-side analysis for a swarm of
//! sensor motes, with proved contracts.

pub mod access;
pub mod asn;
pub mod be;
pub mod calendar;
pub mod crc16;
pub mod desk;
pub mod geo;
pub mod ground;
pub mod groups;
pub mod hexbytes;
pub mod mote;
pub mod probe;
pub mod probes;
pub mod proto;
pub mod rank;
pub mod selftest;
pub mod sim;
pub mod store;
pub mod text;
pub mod timeline;
pub mod types;
