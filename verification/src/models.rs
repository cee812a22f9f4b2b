use vstd::prelude::*;

verus! {

/// One region's latest probe outcome as reported between node and
/// coordinator: the region's short name, the measured latency, and the
/// wall-clock millisecond at which it was measured.
#[derive(Debug, PartialEq)]
pub struct RegionPingInfo {
    pub region: String,
    pub latency: u64,
    pub last_updated: u64,
}

/// The mathematical shape of a region ping report.
pub struct RegionPingInfoModel {
    pub region: Seq<char>,
    pub latency: u64,
    pub last_updated: u64,
}

impl View for RegionPingInfo {
    type V = RegionPingInfoModel;

    open spec fn view(&self) -> RegionPingInfoModel {
        RegionPingInfoModel {
            region: self.region@,
            latency: self.latency,
            last_updated: self.last_updated,
        }
    }
}

impl RegionPingInfo {
    /// An equal report with its own allocations.
    pub fn duplicate(&self) -> (r: RegionPingInfo)
        ensures
            r@ == self@,
    {
        RegionPingInfo {
            region: self.region.clone(),
            latency: self.latency,
            last_updated: self.last_updated,
        }
    }
}

/// The body of a `PHOTON_PINGS` report: every region the sender answers
/// for.
#[derive(Debug, PartialEq)]
pub struct PhotonPingsResponse {
    pub regions: Vec<RegionPingInfo>,
}

} // verus!
