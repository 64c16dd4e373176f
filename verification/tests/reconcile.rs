use netbox2netshot::inventory::Inventory;
use netbox2netshot::netshot;
use netbox2netshot::reconcile::{plan_actions, reconcile, ReconcileResult, WriteAction};

fn monitor_device(id: u32, name: &str, ip: &str, status: &str) -> netshot::Device {
    netshot::Device {
        id,
        name: name.to_string(),
        management_address: netshot::ManagementAddress {
            prefix_length: 24,
            address_usage: String::from("PRIMARY"),
            ip: ip.to_string(),
        },
        status: status.to_string(),
    }
}

fn inventory_of(pairs: &[(&str, &str)]) -> Inventory {
    let mut inv = Inventory::new();
    for (ip, name) in pairs {
        inv.insert(ip.to_string(), name.to_string());
    }
    inv
}

#[test]
fn register_missing_device() {
    let registry = inventory_of(&[("10.0.0.1", "a"), ("10.0.0.2", "b")]);
    let monitor_devices = vec![monitor_device(1, "b", "10.0.0.2", "INPRODUCTION")];
    let monitor = inventory_of(&[("10.0.0.2", "b")]);

    let result = reconcile(&registry, &monitor, &monitor_devices);

    assert_eq!(result.to_register, vec!["10.0.0.1".to_string()]);
    assert!(result.to_disable.is_empty());
    assert!(result.to_enable.is_empty());
}

#[test]
fn disable_stale_device() {
    let registry = inventory_of(&[("10.0.0.1", "a")]);
    let monitor = inventory_of(&[("10.0.0.1", "a"), ("10.0.0.9", "c")]);
    let monitor_devices = vec![
        monitor_device(1, "a", "10.0.0.1", "INPRODUCTION"),
        monitor_device(2, "c", "10.0.0.9", "INPRODUCTION"),
    ];

    let result = reconcile(&registry, &monitor, &monitor_devices);

    assert!(result.to_register.is_empty());
    assert_eq!(result.to_disable, vec!["10.0.0.9".to_string()]);
    assert!(result.to_enable.is_empty());
}

#[test]
fn enable_disabled_device_once() {
    let registry = inventory_of(&[("10.0.0.1", "a"), ("10.0.0.2", "b")]);
    let monitor = inventory_of(&[("10.0.0.1", "a"), ("10.0.0.2", "b")]);
    let monitor_devices = vec![
        monitor_device(1, "a", "10.0.0.1", "INPRODUCTION"),
        monitor_device(2, "b", "10.0.0.2", "DISABLED"),
    ];

    let result = reconcile(&registry, &monitor, &monitor_devices);

    assert!(result.to_register.is_empty());
    assert!(result.to_disable.is_empty());
    assert_eq!(result.to_enable, vec!["10.0.0.2".to_string()]);
    assert_eq!(
        result
            .to_enable
            .iter()
            .filter(|ip| ip.as_str() == "10.0.0.2")
            .count(),
        1
    );
}

#[test]
fn disabled_device_missing_from_registry_not_enabled() {
    let registry = inventory_of(&[("10.0.0.1", "a")]);
    let monitor = inventory_of(&[("10.0.0.1", "a"), ("10.0.0.9", "c")]);
    let monitor_devices = vec![
        monitor_device(1, "a", "10.0.0.1", "INPRODUCTION"),
        monitor_device(2, "c", "10.0.0.9", "DISABLED"),
    ];

    let result = reconcile(&registry, &monitor, &monitor_devices);

    assert!(result.to_register.is_empty());
    assert_eq!(result.to_disable, vec!["10.0.0.9".to_string()]);
    assert!(result.to_enable.is_empty());
}

#[test]
fn reconcile_twice_is_identical() {
    let registry = inventory_of(&[("10.0.0.1", "a"), ("10.0.0.3", "c")]);
    let monitor = inventory_of(&[("10.0.0.1", "a"), ("10.0.0.9", "x")]);
    let monitor_devices = vec![
        monitor_device(1, "a", "10.0.0.1", "DISABLED"),
        monitor_device(2, "x", "10.0.0.9", "INPRODUCTION"),
    ];

    let first = reconcile(&registry, &monitor, &monitor_devices);
    let second = reconcile(&registry, &monitor, &monitor_devices);

    assert_eq!(first.to_register, second.to_register);
    assert_eq!(first.to_disable, second.to_disable);
    assert_eq!(first.to_enable, second.to_enable);
}

#[test]
fn applying_actions_reaches_a_fixed_point() {
    let registry = inventory_of(&[("10.0.0.1", "a"), ("10.0.0.2", "b")]);
    let monitor_devices = vec![
        monitor_device(1, "b", "10.0.0.2", "DISABLED"),
        monitor_device(2, "c", "10.0.0.9", "INPRODUCTION"),
    ];
    let monitor = inventory_of(&[("10.0.0.2", "b"), ("10.0.0.9", "c")]);

    let first = reconcile(&registry, &monitor, &monitor_devices);
    assert_eq!(first.to_register, vec!["10.0.0.1".to_string()]);
    assert_eq!(first.to_disable, vec!["10.0.0.9".to_string()]);
    assert_eq!(first.to_enable, vec!["10.0.0.2".to_string()]);

    // Apply the actions: the registered device joins the monitor's
    // inventory enabled, the disabled one stays listed but disabled, the
    // enabled one's status clears.
    let monitor_devices_after = vec![
        monitor_device(1, "b", "10.0.0.2", "INPRODUCTION"),
        monitor_device(2, "c", "10.0.0.9", "DISABLED"),
        monitor_device(3, "a", "10.0.0.1", "INPRODUCTION"),
    ];
    let monitor_after = inventory_of(&[("10.0.0.2", "b"), ("10.0.0.9", "c"), ("10.0.0.1", "a")]);

    let second = reconcile(&registry, &monitor_after, &monitor_devices_after);

    assert!(second.to_register.is_empty());
    assert!(second.to_enable.is_empty());
    // The stale device stays in the monitor's inventory after it is
    // disabled, so it is found again — but it is already disabled, so
    // the disable write it would trigger is a no-op.
    assert_eq!(second.to_disable, vec!["10.0.0.9".to_string()]);
    assert_eq!(
        netshot::decide_set_enabled(&monitor_devices_after[1], false),
        netshot::EnableAction::AlreadyInState
    );
}

#[test]
fn check_mode_plans_no_write() {
    let result = ReconcileResult {
        to_register: vec!["10.0.0.1".to_string()],
        to_disable: vec!["10.0.0.9".to_string()],
        to_enable: vec!["10.0.0.2".to_string()],
    };

    let writes = plan_actions(&result, true);
    assert!(writes.is_empty());
}

#[test]
fn live_mode_plans_all_writes_in_order() {
    let result = ReconcileResult {
        to_register: vec!["10.0.0.1".to_string(), "10.0.0.4".to_string()],
        to_disable: vec!["10.0.0.9".to_string()],
        to_enable: vec!["10.0.0.2".to_string()],
    };

    let writes = plan_actions(&result, false);
    assert_eq!(writes.len(), 4);
    match &writes[0] {
        WriteAction::Register(ip) => assert_eq!(ip, "10.0.0.1"),
        _ => panic!("expected a registration first"),
    }
    match &writes[1] {
        WriteAction::Register(ip) => assert_eq!(ip, "10.0.0.4"),
        _ => panic!("expected a registration second"),
    }
    match &writes[2] {
        WriteAction::Disable(ip) => assert_eq!(ip, "10.0.0.9"),
        _ => panic!("expected the disable third"),
    }
    match &writes[3] {
        WriteAction::Enable(ip) => assert_eq!(ip, "10.0.0.2"),
        _ => panic!("expected the enable last"),
    }
}

#[test]
fn empty_inputs_reconcile_to_nothing() {
    let registry = Inventory::new();
    let monitor = Inventory::new();
    let monitor_devices: Vec<netshot::Device> = Vec::new();

    let result = reconcile(&registry, &monitor, &monitor_devices);

    assert!(result.to_register.is_empty());
    assert!(result.to_disable.is_empty());
    assert!(result.to_enable.is_empty());
}
