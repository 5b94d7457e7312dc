//! What the payload of a frame carries.

use vstd::prelude::*;

verus! {

/// Frame without payload that says "I am alive".
pub const HEARTBEAT: u8 = 0x01;

/// Telemetry of a mote to the mothership.
pub const TELEMETRY: u8 = 0x02;

/// Command of the mothership to motes.
pub const COMMAND: u8 = 0x03;

} // verus!
