//! Synchronization library between a device registry (NetBox) and a device
//! monitor (Netshot).
//!
//! The library holds the logic of one synchronization run: following the
//! cursor of a paginated registry collection, projecting raw device records
//! into canonical IP-keyed inventories, computing the three reconciliation
//! action sets (register, disable, enable), and planning the writes that a
//! run applies. The REST transport around it lives outside the library and
//! only hands plain values in and out.

pub mod inventory;
pub mod netbox;
pub mod netshot;
pub mod numbers;
pub mod pagination;
pub mod reconcile;
