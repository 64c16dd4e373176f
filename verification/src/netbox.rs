//! Data model of the device registry (NetBox).
//!
//! A registry record carries an optional display name and an optional
//! primary IPv4 address; a record is valid for reconciliation only when
//! both are present.

use vstd::prelude::*;

verus! {

/// The `primary_ip` field of a registry device record. The address carries
/// a CIDR suffix (for example `"10.0.0.1/24"`).
pub struct PrimaryIP {
    pub id: u32,
    pub family: u8,
    pub address: String,
}

/// One device record as the registry's collection endpoint returns it.
pub struct Device {
    pub id: u32,
    pub name: Option<String>,
    pub primary_ip4: Option<PrimaryIP>,
}

/// A device is valid for reconciliation iff both its name and its primary
/// IPv4 address are present.
pub open spec fn spec_is_valid(device: Device) -> bool {
    device.primary_ip4 is Some && device.name is Some
}

impl Device {
    /// Is this a valid device for import?
    pub fn is_valid(&self) -> (r: bool)
        ensures
            r == spec_is_valid(*self),
    {
        self.primary_ip4.is_some() && self.name.is_some()
    }
}

/// One page of the registry's paginated device collection: the total match
/// count across all pages, the cursor URLs, and this page's records.
pub struct NetboxDCIMDeviceList {
    pub count: u32,
    pub next: Option<String>,
    pub previous: Option<String>,
    pub results: Vec<Device>,
}

} // verus!
