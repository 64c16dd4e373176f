use netbox2netshot::netbox::{Device, NetboxDCIMDeviceList, PrimaryIP};
use netbox2netshot::pagination::{
    build_page_query, extract_offset, DevicePager, PagerError, API_LIMIT,
};

fn registry_device(id: u32) -> Device {
    Device {
        id,
        name: Some(format!("device-{}", id)),
        primary_ip4: Some(PrimaryIP {
            id,
            family: 4,
            address: format!("10.0.{}.{}/24", id / 256, id % 256),
        }),
    }
}

fn page(count: u32, next: Option<&str>, ids: std::ops::Range<u32>) -> NetboxDCIMDeviceList {
    NetboxDCIMDeviceList {
        count,
        next: next.map(|s| s.to_string()),
        previous: None,
        results: ids.map(registry_device).collect(),
    }
}

#[test]
fn extract_offset_from_next_url() {
    let url = "https://example.net/api/dcim/devices/?limit=100&offset=100".to_string();
    assert_eq!(extract_offset(&url), Ok(100));
}

#[test]
fn extract_offset_takes_first_offset_parameter() {
    let url = "https://example.net/api/x?offset=42&offset=7".to_string();
    assert_eq!(extract_offset(&url), Ok(42));
}

#[test]
fn extract_offset_missing_parameter_fails() {
    let url = "https://example.net/api/dcim/devices/?limit=100".to_string();
    assert_eq!(extract_offset(&url), Err(PagerError::MissingOffset));
}

#[test]
fn extract_offset_unparseable_url_fails() {
    let url = "not a url at all".to_string();
    assert_eq!(extract_offset(&url), Err(PagerError::InvalidNextUrl));
}

#[test]
fn extract_offset_non_numeric_value_fails() {
    let url = "https://example.net/api/x?offset=ten".to_string();
    assert_eq!(extract_offset(&url), Err(PagerError::InvalidOffset));
}

#[test]
fn extract_offset_oversized_value_fails() {
    let url = "https://example.net/api/x?offset=4294967296".to_string();
    assert_eq!(extract_offset(&url), Err(PagerError::InvalidOffset));
}

#[test]
fn three_pages_of_a_250_item_collection() {
    let mut pager = DevicePager::new();
    assert_eq!(pager.next_offset, 0);
    let mut requests = 0;

    // Page one: 100 items, cursor to offset 100.
    assert!(!pager.finished);
    requests += 1;
    pager
        .feed_page(page(
            250,
            Some("https://example.net/api/dcim/devices/?limit=100&offset=100"),
            0..100,
        ))
        .unwrap();
    assert_eq!(pager.next_offset, 100);
    assert!(!pager.finished);

    // Page two: 100 items, cursor to offset 200.
    requests += 1;
    pager
        .feed_page(page(
            250,
            Some("https://example.net/api/dcim/devices/?limit=100&offset=200"),
            100..200,
        ))
        .unwrap();
    assert_eq!(pager.next_offset, 200);
    assert!(!pager.finished);

    // Page three: the last 50 items, no cursor.
    requests += 1;
    pager.feed_page(page(250, None, 200..250)).unwrap();
    assert!(pager.finished);

    assert_eq!(requests, 3);
    assert_eq!(pager.pages_fetched, 3);
    let devices = pager.into_devices();
    assert_eq!(devices.len(), 250);
    for (i, device) in devices.iter().enumerate() {
        assert_eq!(device.id, i as u32);
    }
}

#[test]
fn next_url_without_offset_aborts_the_fetch() {
    let mut pager = DevicePager::new();
    let result = pager.feed_page(page(
        250,
        Some("https://example.net/api/dcim/devices/?limit=100"),
        0..100,
    ));
    assert_eq!(result, Err(PagerError::MissingOffset));
    // The failed page leaves the cursor untouched: nothing was taken in.
    assert_eq!(pager.pages_fetched, 0);
    assert_eq!(pager.devices.len(), 0);
    assert!(!pager.finished);
}

#[test]
fn page_query_carries_limit_offset_and_filter() {
    let query = build_page_query(API_LIMIT, 200, "site=lab");
    assert_eq!(query, "limit=100&offset=200&site=lab");
}

#[test]
fn page_query_with_empty_filter() {
    let query = build_page_query(100, 0, "");
    assert_eq!(query, "limit=100&offset=0&");
}

#[test]
fn cursor_failure_on_a_later_page_keeps_earlier_records() {
    let mut pager = DevicePager::new();
    pager
        .feed_page(page(
            150,
            Some("https://example.net/api/dcim/devices/?limit=100&offset=100"),
            0..100,
        ))
        .unwrap();
    let result = pager.feed_page(page(
        150,
        Some("https://example.net/api/dcim/devices/?limit=100"),
        100..150,
    ));
    assert_eq!(result, Err(PagerError::MissingOffset));
    assert_eq!(pager.devices.len(), 100);
    assert_eq!(pager.pages_fetched, 1);
}
