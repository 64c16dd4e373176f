use netbox2netshot::netbox;
use netbox2netshot::netshot;
use netbox2netshot::numbers::{format_u32, parse_u32};

fn registry_device(id: u32, name: Option<&str>, address: Option<&str>) -> netbox::Device {
    netbox::Device {
        id,
        name: name.map(|s| s.to_string()),
        primary_ip4: address.map(|a| netbox::PrimaryIP {
            id,
            family: 4,
            address: a.to_string(),
        }),
    }
}

#[test]
fn netbox_single_good_device() {
    let device = registry_device(1, Some("test-device"), Some("1.2.3.4/32"));
    assert_eq!(device.name.as_ref().unwrap(), "test-device");
    assert_eq!(device.id, 1 as u32);
    assert_eq!(device.primary_ip4.as_ref().unwrap().address, "1.2.3.4/32");
    assert_eq!(device.is_valid(), true);
}

#[test]
fn netbox_single_device_without_primary_ip() {
    let device = registry_device(1, Some("test-device"), None);
    assert_eq!(device.is_valid(), false);
}

#[test]
fn netbox_single_device_without_name() {
    let device = registry_device(1, None, Some("1.2.3.4/32"));
    assert_eq!(device.is_valid(), false);
}

fn monitor_device(id: u32, name: &str, ip: &str, status: &str) -> netshot::Device {
    netshot::Device {
        id,
        name: name.to_string(),
        management_address: netshot::ManagementAddress {
            prefix_length: 32,
            address_usage: String::from("PRIMARY"),
            ip: ip.to_string(),
        },
        status: status.to_string(),
    }
}

#[test]
fn netshot_single_good_device() {
    let device = monitor_device(1, "test-device", "1.2.3.4", "INPRODUCTION");
    assert_eq!(device.name, "test-device");
    assert_eq!(device.id, 1 as u32);
    assert_eq!(device.management_address.ip, "1.2.3.4");
    assert!(!device.is_disabled());
}

#[test]
fn disabled_status_is_recognized() {
    let device = monitor_device(1, "test-device", "1.2.3.4", "DISABLED");
    assert!(device.is_disabled());
}

#[test]
fn enable_a_disabled_device_updates_it() {
    let device = monitor_device(2318, "test-device", "1.2.3.4", "DISABLED");
    assert_eq!(
        netshot::decide_set_enabled(&device, true),
        netshot::EnableAction::Update(2318)
    );
}

#[test]
fn disable_a_disabled_device_is_a_no_op() {
    let device = monitor_device(2318, "test-device", "1.2.3.4", "DISABLED");
    assert_eq!(
        netshot::decide_set_enabled(&device, false),
        netshot::EnableAction::AlreadyInState
    );
}

#[test]
fn enable_an_enabled_device_is_a_no_op() {
    let device = monitor_device(7, "test-device", "1.2.3.4", "INPRODUCTION");
    assert_eq!(
        netshot::decide_set_enabled(&device, true),
        netshot::EnableAction::AlreadyInState
    );
}

#[test]
fn disable_an_enabled_device_updates_it() {
    let device = monitor_device(7, "test-device", "1.2.3.4", "INPRODUCTION");
    assert_eq!(
        netshot::decide_set_enabled(&device, false),
        netshot::EnableAction::Update(7)
    );
}

#[test]
fn search_query_for_an_ip() {
    assert_eq!(netshot::build_ip_search_query("1.2.3.4"), "[IP] IS 1.2.3.4");
}

#[test]
fn parse_u32_reads_decimal_numbers() {
    assert_eq!(parse_u32("0"), Some(0));
    assert_eq!(parse_u32("100"), Some(100));
    assert_eq!(parse_u32("4294967295"), Some(u32::MAX));
}

#[test]
fn parse_u32_rejects_what_is_no_u32() {
    assert_eq!(parse_u32(""), None);
    assert_eq!(parse_u32("12a"), None);
    assert_eq!(parse_u32("-5"), None);
    assert_eq!(parse_u32("4294967296"), None);
}

#[test]
fn format_u32_writes_decimal_numbers() {
    assert_eq!(format_u32(0), "0");
    assert_eq!(format_u32(100), "100");
    assert_eq!(format_u32(4294967295), "4294967295");
}

#[test]
fn format_then_parse_round_trips() {
    for n in [0u32, 1, 9, 10, 99, 250, 65536, u32::MAX] {
        assert_eq!(parse_u32(format_u32(n).as_str()), Some(n));
    }
}
