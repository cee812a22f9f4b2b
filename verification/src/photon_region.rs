use vstd::prelude::*;

verus! {

/// A named relay datacenter: the short name that identifies it and the URL
/// of its master server.
#[derive(Debug, Clone, PartialEq)]
pub struct PhotonRegion {
    pub short_name: String,
    pub address: String,
}

/// The mathematical shape of a region: both texts as character sequences.
pub struct RegionModel {
    pub short_name: Seq<char>,
    pub address: Seq<char>,
}

impl View for PhotonRegion {
    type V = RegionModel;

    open spec fn view(&self) -> RegionModel {
        RegionModel { short_name: self.short_name@, address: self.address@ }
    }
}

} // verus!
