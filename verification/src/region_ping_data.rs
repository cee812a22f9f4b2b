use vstd::prelude::*;

use crate::models::RegionPingInfo;
use crate::photon_region::PhotonRegion;

verus! {

/// One region's latest probe outcome as the node keeps it: the region
/// itself, the measured round trip, and the wall-clock millisecond of the
/// measurement.
#[derive(Debug, Clone, PartialEq)]
pub struct RegionPingData {
    pub region: PhotonRegion,
    pub rtt: u64,
    pub last_updated: u64,
}

impl RegionPingData {
    /// The measurement as the report shared with the coordinator, keyed by
    /// the region's short name.
    pub fn to_info(&self) -> (r: RegionPingInfo)
        ensures
            r@.region == self.region.short_name@,
            r@.latency == self.rtt,
            r@.last_updated == self.last_updated,
    {
        RegionPingInfo {
            region: self.region.short_name.clone(),
            latency: self.rtt,
            last_updated: self.last_updated,
        }
    }
}

} // verus!
