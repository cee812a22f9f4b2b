use vstd::prelude::*;

verus! {

/// Parameter keys of the relay protocol's operations.
pub const APPLICATION_ID: u8 = 224;

pub const SECRET: u8 = 221;

pub const APP_VERSION: u8 = 220;

pub const CLIENT_AUTHENTICATION_TYPE: u8 = 217;

pub const CLIENT_AUTHENTICATION_PARAMS: u8 = 216;

pub const CLIENT_AUTHENTICATION_DATA: u8 = 214;

/// Key of the region short-name array in a region-discovery response.
pub const REGION: u8 = 210;

/// Key of the region address array in a region-discovery response.
pub const ADDRESS: u8 = 230;

pub const USER_ID: u8 = 225;

pub const DATA: u8 = 245;

} // verus!
