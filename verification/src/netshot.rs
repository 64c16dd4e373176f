//! Data model of the device monitor (Netshot).
//!
//! The monitor is the only side that carries an explicit lifecycle status;
//! a device is disabled exactly when that status is the string `DISABLED`.
//! The decision whether a state-changing write is needed at all is a pure
//! function over the device found for an IP, kept here so the write loop
//! outside the library cannot get it wrong.

use vstd::prelude::*;

verus! {

/// The management address of a monitor device record. The IP is bare: it
/// carries no CIDR suffix.
pub struct ManagementAddress {
    pub prefix_length: u8,
    pub address_usage: String,
    pub ip: String,
}

/// One device record as the monitor's device endpoint returns it.
pub struct Device {
    pub id: u32,
    pub name: String,
    pub management_address: ManagementAddress,
    pub status: String,
}

/// What the monitor answers to a registration request: the identifier of
/// the discovery task it scheduled, and that task's status.
pub struct NewDeviceCreatedPayload {
    pub task_id: u32,
    pub status: String,
}

/// What the monitor answers to a state update.
pub struct DeviceUpdatedPayload {
    pub status: String,
}

/// What the monitor answers to a search: the query it ran and the devices
/// that matched it.
pub struct DeviceSearchResultPayload {
    pub query: String,
    pub devices: Vec<Device>,
}

/// A monitor device is disabled exactly when its status is `DISABLED`;
/// every other status counts as enabled.
pub open spec fn spec_is_disabled(device: Device) -> bool {
    device.status@ == "DISABLED"@
}

impl Device {
    /// Is this device currently disabled in the monitor?
    pub fn is_disabled(&self) -> (r: bool)
        ensures
            r == spec_is_disabled(*self),
    {
        let disabled: String = "DISABLED".to_owned();
        self.status == disabled
    }
}

/// The outcome of deciding a state-changing write: either the device is
/// already in the requested state and no write must be issued, or the
/// update must be sent for the device's internal identifier.
#[derive(PartialEq, Eq, Structural, Debug)]
pub enum EnableAction {
    AlreadyInState,
    Update(u32),
}

/// The write that setting a device to `enabled` requires: none when the
/// device is already in that state, else an update keyed by its
/// identifier.
pub open spec fn spec_decide_set_enabled(device: Device, enabled: bool) -> EnableAction {
    if enabled == !spec_is_disabled(device) {
        EnableAction::AlreadyInState
    } else {
        EnableAction::Update(device.id)
    }
}

/// Decide whether setting `device` to `enabled` needs a write. The
/// request is a no-op exactly when the device's current state already
/// matches the requested one.
pub fn decide_set_enabled(device: &Device, enabled: bool) -> (r: EnableAction)
    ensures
        r == spec_decide_set_enabled(*device, enabled),
{
    let disabled = device.is_disabled();
    if enabled == !disabled {
        EnableAction::AlreadyInState
    } else {
        EnableAction::Update(device.id)
    }
}

/// The search query that resolves a device by its IP address.
pub fn build_ip_search_query(ip: &str) -> (r: String)
    ensures
        r@ == "[IP] IS "@ + ip@,
{
    let mut query: String = "[IP] IS ".to_owned();
    query.append(ip);
    query
}

} // verus!
