use vstd::prelude::*;

verus! {

/// Opcode of the relay's internal ping operation.
pub const PING: u8 = 1;

/// Opcode of the region-discovery operation.
pub const GET_REGIONS: u8 = 220;

} // verus!
