use uwhat::device::Scan;
use uwhat::macos::{
    bus_name_speed, decode_location, join_chain, link_speed, parse_hex_u16, parse_scan,
    scan_profiler_output, synth_parent_port, ProfilerItem,
};
use uwhat::topology::build_physical_topology;
use uwhat::usb_ids::UsbIds;

fn entry(name: &str, location: &str) -> ProfilerItem {
    ProfilerItem {
        name: Some(name.to_string()),
        has_vendor_key: false,
        vendor_id: None,
        product_id: None,
        vendor_name: None,
        link_speed: None,
        location_id: Some(location.to_string()),
        serial: None,
        hardware_type: None,
        items: None,
    }
}

#[allow(clippy::too_many_arguments)]
fn device(
    name: &str,
    vid: &str,
    pid: &str,
    vendor: Option<&str>,
    speed: &str,
    location: &str,
    hardware: &str,
) -> ProfilerItem {
    ProfilerItem {
        name: Some(name.to_string()),
        has_vendor_key: true,
        vendor_id: Some(vid.to_string()),
        product_id: Some(pid.to_string()),
        vendor_name: vendor.map(str::to_string),
        link_speed: Some(speed.to_string()),
        location_id: Some(location.to_string()),
        serial: None,
        hardware_type: Some(hardware.to_string()),
        items: None,
    }
}

// One populated controller carrying:
//   - an internal 480 Mbps device on root port 1 (USB 2.0-only header)
//   - a removable 5 Gbps hub on root port 2
//   - a removable 480 Mbps keyboard on the hub's port 1 (throttled)
// Plus an empty "USB 4.0 Bus", which gets an index but no root hub.
const FIXTURE: &str = r#"{
  "SPUSBHostDataType": [
    {
      "_name": "USB 3.1 Bus",
      "USBKeyLocationID": "0x00000000",
      "_items": [
        {
          "_name": "Bluetooth USB Host Controller",
          "USBDeviceKeyVendorID": "0x05ac",
          "USBDeviceKeyProductID": "0x8290",
          "USBDeviceKeyVendorName": "Apple Inc.",
          "USBDeviceKeyLinkSpeed": "480 Mb/s",
          "USBKeyLocationID": "0x00100000",
          "USBKeyHardwareType": "Non-removable"
        },
        {
          "_name": "USB3.0 Hub",
          "USBDeviceKeyVendorID": "0x05e3",
          "USBDeviceKeyProductID": "0x0610",
          "USBDeviceKeyVendorName": "GenesysLogic",
          "USBDeviceKeyLinkSpeed": "5 Gb/s",
          "USBKeyLocationID": "0x00200000",
          "USBDeviceKeySerialNumber": "Not Provided",
          "USBKeyHardwareType": "Removable",
          "_items": [
            {
              "_name": "Gaming Keyboard",
              "USBDeviceKeyVendorID": "0x1b1c",
              "USBDeviceKeyProductID": "0x1bc0",
              "USBDeviceKeyVendorName": "Corsair",
              "USBDeviceKeyLinkSpeed": "480 Mb/s",
              "USBKeyLocationID": "0x00210000",
              "USBKeyHardwareType": "Removable"
            }
          ]
        }
      ]
    },
    {
      "_name": "USB 4.0 Bus",
      "USBKeyLocationID": "0x08000000"
    }
  ]
}"#;

fn scan_fixture(json: &str) -> Scan {
    scan_profiler_output(json.as_bytes(), &UsbIds::empty()).unwrap()
}

#[test]
fn decode_location_extracts_bus_and_port_chain() {
    assert_eq!(decode_location("0x00143400"), Some((0x00, vec![1, 4, 3, 4])));
    assert_eq!(decode_location("0x00100000"), Some((0x00, vec![1])));
    assert_eq!(decode_location("0x08000000"), Some((0x08, vec![])));
    assert_eq!(decode_location("0x02120000"), Some((0x02, vec![1, 2])));
    assert_eq!(decode_location("garbage"), None);
}

#[test]
fn synth_parent_port_matches_sysfs_shape() {
    assert_eq!(synth_parent_port(1, &[2]).as_deref(), Some("usb1-port2"));
    assert_eq!(synth_parent_port(1, &[2, 1]).as_deref(), Some("1-2-port1"));
    assert_eq!(synth_parent_port(1, &[2, 3, 4]).as_deref(), Some("1-2.3-port4"));
    assert_eq!(synth_parent_port(1, &[]), None);
}

#[test]
fn link_speed_parses_units() {
    let mk = |s: &str| {
        let mut item = entry("x", "0x00100000");
        item.link_speed = Some(s.to_string());
        item
    };
    assert_eq!(link_speed(&mk("480 Mb/s")), 480_000);
    assert_eq!(link_speed(&mk("5 Gb/s")), 5_000_000);
    assert_eq!(link_speed(&mk("10 Gb/s")), 10_000_000);
    let mut none = entry("x", "0x00100000");
    none.link_speed = None;
    assert_eq!(link_speed(&none), 0);
}

#[test]
fn bus_name_speed_respects_the_generation() {
    let kbps = |name: &str| bus_name_speed(name);
    // The Gen suffix decides, not the version number
    assert_eq!(kbps("USB 3.1 Gen 1 Bus"), 5_000_000);
    assert_eq!(kbps("USB 3.2 Gen 1x2 Bus"), 10_000_000);
    assert_eq!(kbps("USB 3.2 Gen 2x2 Bus"), 20_000_000);
    // Without a Gen suffix the version number is all we have
    assert_eq!(kbps("USB 3.1 Bus"), 10_000_000);
    assert_eq!(kbps("USB 3.0 Bus"), 5_000_000);
    assert_eq!(kbps("USB 2.0 Bus"), 480_000);
    assert_eq!(kbps("USB 4.0 Bus"), 40_000_000);
    // Unrecognised names claim nothing
    assert_eq!(kbps("Some Controller"), 0);
}

#[test]
fn parse_scan_builds_flat_devices() {
    let scan = scan_fixture(FIXTURE);

    // Root hub + bluetooth + hub + keyboard; the empty "USB 4.0 Bus"
    // gets no root hub.
    assert_eq!(scan.devices.len(), 4);
    assert!(scan.peers.is_empty());

    let root_hub = scan.devices.iter().find(|d| d.is_root_hub()).unwrap();
    assert_eq!(root_hub.bus, 1);
    assert_eq!(root_hub.product.as_deref(), Some("USB 3.1 Bus"));
    // Bus name says 10 Gbps, which beats the fastest child (5 Gbps).
    assert_eq!(root_hub.speed, 10_000_000);

    let hub = scan
        .devices
        .iter()
        .find(|d| d.product.as_deref() == Some("USB3.0 Hub"))
        .unwrap();
    assert_eq!(hub.node_key, "1-2");
    assert_eq!(hub.parent_port.as_deref(), Some("usb1-port2"));
    assert_eq!(hub.serial, None); // "Not Provided" is dropped
    assert_eq!(hub.removable.as_deref(), Some("removable"));
    assert!(hub.port_capability_known);

    let kbd = scan
        .devices
        .iter()
        .find(|d| d.product.as_deref() == Some("Gaming Keyboard"))
        .unwrap();
    assert_eq!(kbd.node_key, "1-2.1");
    assert_eq!(kbd.parent_port.as_deref(), Some("1-2-port1"));
    assert_eq!(kbd.vendor_id, 0x1b1c);

    let bt = scan.devices.iter().find(|d| d.vendor_id == 0x05ac).unwrap();
    assert_eq!(bt.node_key, "1-1");
    assert_eq!(bt.removable.as_deref(), Some("fixed"));
    assert!(!bt.port_capability_known);
}

#[test]
fn parse_scan_rejects_unexpected_output() {
    // A renamed/missing data type must be an error, not "no devices"
    let other = r#"{"SPSomethingElse": []}"#;
    assert!(scan_profiler_output(other.as_bytes(), &UsbIds::empty()).is_err());
    // An empty machine is still a valid, successful scan
    let empty = r#"{"SPUSBHostDataType": []}"#;
    assert!(scan_profiler_output(empty.as_bytes(), &UsbIds::empty())
        .unwrap()
        .devices
        .is_empty());
}

#[test]
fn output_that_is_not_json_is_an_error() {
    assert!(scan_profiler_output(b"not json", &UsbIds::empty()).is_err());
    assert!(scan_profiler_output(b"", &UsbIds::empty()).is_err());
    // A document whose array is not an array is unexpected output too
    let wrong = r#"{"SPUSBHostDataType": "none"}"#;
    assert!(scan_profiler_output(wrong.as_bytes(), &UsbIds::empty()).is_err());
}

#[test]
fn parse_scan_without_an_array_is_an_error() {
    assert!(parse_scan(&None, &UsbIds::empty()).is_err());
    assert!(parse_scan(&Some(vec![]), &UsbIds::empty()).unwrap().devices.is_empty());
}

const TWO_BUSES: &str = r#"{
  "SPUSBHostDataType": [
    { "_name": "USB 3.1 Bus", "USBKeyLocationID": "0x00000000" },
    {
      "_name": "USB 2.0 Bus",
      "USBKeyLocationID": "0x02000000",
      "_items": [
        {
          "_name": "Mouse",
          "USBDeviceKeyVendorID": "0x046d",
          "USBDeviceKeyProductID": "0xc52b",
          "USBDeviceKeyLinkSpeed": "12 Mb/s",
          "USBKeyLocationID": "0x02100000",
          "USBKeyHardwareType": "Removable"
        }
      ]
    }
  ]
}"#;

#[test]
fn bus_index_is_stable_when_a_lower_bus_is_empty() {
    // Two controllers, only the higher one populated: it must keep index 2
    // so that plugging something into the empty bus does not renumber it.
    let scan = scan_fixture(TWO_BUSES);
    // Only the populated bus gets a root hub, but it keeps index 2
    assert_eq!(scan.devices.len(), 2);
    let root_hub = scan.devices.iter().find(|d| d.is_root_hub()).unwrap();
    assert_eq!(root_hub.bus, 2);
    assert_eq!(root_hub.node_key, "usb2");

    let mouse = scan.devices.iter().find(|d| !d.is_root_hub()).unwrap();
    assert_eq!(mouse.bus, 2);
    assert_eq!(mouse.node_key, "2-1");
    assert_eq!(mouse.parent_port.as_deref(), Some("usb2-port1"));
}

#[test]
fn plugging_into_the_empty_bus_keeps_bus_numbers() {
    let after = r#"{
      "SPUSBHostDataType": [
        {
          "_name": "USB 3.1 Bus",
          "USBKeyLocationID": "0x00000000",
          "_items": [
            {
              "_name": "Stick",
              "USBDeviceKeyVendorID": "0x0781",
              "USBDeviceKeyProductID": "0x5583",
              "USBDeviceKeyLinkSpeed": "5 Gb/s",
              "USBKeyLocationID": "0x00300000",
              "USBKeyHardwareType": "Removable"
            }
          ]
        },
        {
          "_name": "USB 2.0 Bus",
          "USBKeyLocationID": "0x02000000",
          "_items": [
            {
              "_name": "Mouse",
              "USBDeviceKeyVendorID": "0x046d",
              "USBDeviceKeyProductID": "0xc52b",
              "USBDeviceKeyLinkSpeed": "12 Mb/s",
              "USBKeyLocationID": "0x02100000",
              "USBKeyHardwareType": "Removable"
            }
          ]
        }
      ]
    }"#;
    let before = scan_fixture(TWO_BUSES);
    let after = scan_fixture(after);
    let mouse_of = |scan: &Scan| {
        let m = scan.devices.iter().find(|d| d.product.as_deref() == Some("Mouse")).unwrap();
        (m.bus, m.node_key.clone(), m.parent_port.clone())
    };
    let (m1, m2) = (mouse_of(&before), mouse_of(&after));
    assert_eq!(m1.0, 2);
    assert_eq!(m1, m2);
    let stick = after.devices.iter().find(|d| d.product.as_deref() == Some("Stick")).unwrap();
    assert_eq!(stick.bus, 1);
    assert_eq!(stick.node_key, "1-3");
    assert_eq!(after.devices.iter().filter(|d| d.is_root_hub()).count(), 2);
}

#[test]
fn device_strings_are_stripped_of_control_characters() {
    const EVIL: &str = r#"{
      "SPUSBHostDataType": [
        {
          "_name": "USB 2.0 Bus",
          "USBKeyLocationID": "0x00000000",
          "_items": [
            {
              "_name": "Evil\u001b]0;pwned\u0007Device",
              "USBDeviceKeyVendorID": "0x1234",
              "USBDeviceKeyProductID": "0x5678",
              "USBDeviceKeyVendorName": "E\u001b[31mvil Corp",
              "USBDeviceKeyLinkSpeed": "480 Mb/s",
              "USBKeyLocationID": "0x00100000",
              "USBKeyHardwareType": "Removable"
            }
          ]
        }
      ]
    }"#;

    let scan = scan_fixture(EVIL);
    let dev = scan.devices.iter().find(|d| !d.is_root_hub()).unwrap();
    assert_eq!(dev.product.as_deref(), Some("Evil]0;pwnedDevice"));
    assert_eq!(dev.manufacturer.as_deref(), Some("E[31mvil Corp"));
    assert!(!dev.display_name().chars().any(char::is_control));
}

#[test]
fn device_strings_are_stripped_when_built_by_hand() {
    let evil = device(
        "Evil\u{1b}]0;pwned\u{7}Device",
        "0x1234",
        "0x5678",
        Some("E\u{1b}[31mvil Corp"),
        "480 Mb/s",
        "0x00100000",
        "Removable",
    );
    let mut bus = entry("USB 2.0 Bus", "0x00000000");
    bus.items = Some(vec![evil]);

    let scan = parse_scan(&Some(vec![bus]), &UsbIds::empty()).unwrap();
    let dev = scan.devices.iter().find(|d| !d.is_root_hub()).unwrap();
    assert_eq!(dev.product.as_deref(), Some("Evil]0;pwnedDevice"));
    assert_eq!(dev.manufacturer.as_deref(), Some("E[31mvil Corp"));
}

#[test]
fn parse_scan_feeds_topology_with_speed_warning() {
    let scan = scan_fixture(FIXTURE);

    let controllers = build_physical_topology(&scan.devices, &scan.peers);
    assert_eq!(controllers.len(), 1);
    assert_eq!(controllers[0].children.len(), 2);

    // Internal 480 Mbps device on a 10 Gbps controller: the port wiring is
    // unknown, so no throttling verdict.
    let bt = &controllers[0].children[0];
    assert_eq!(bt.device.product.as_deref(), Some("Bluetooth USB Host Controller"));
    assert!(!bt.speed_limited);

    let hub = &controllers[0].children[1];
    assert_eq!(hub.device.product.as_deref(), Some("USB3.0 Hub"));
    assert!(!hub.speed_limited);

    // Removable device behind a 5 Gbps hub: verdict stands.
    let kbd = &hub.children[0];
    assert_eq!(kbd.device.product.as_deref(), Some("Gaming Keyboard"));
    assert!(kbd.speed_limited);
    assert_eq!(kbd.port_max_speed, 5_000_000);
}

#[test]
fn hex_ids_and_chains() {
    assert_eq!(parse_hex_u16(&Some(" 0x05ac ".to_string())), Some(0x05ac));
    assert_eq!(parse_hex_u16(&Some("1b1c".to_string())), Some(0x1b1c));
    assert_eq!(parse_hex_u16(&Some("0x12345".to_string())), None);
    assert_eq!(parse_hex_u16(&None), None);
    assert_eq!(join_chain(&[2, 3, 4]), "2.3.4");
    assert_eq!(join_chain(&[]), "");
}

#[test]
fn fractional_and_malformed_link_speeds() {
    let mk = |s: &str| {
        let mut item = entry("x", "0x00100000");
        item.link_speed = Some(s.to_string());
        item
    };
    assert_eq!(link_speed(&mk("1.5 Mb/s")), 1500);
    assert_eq!(link_speed(&mk(" 12 Mb/s ")), 12_000);
    assert_eq!(link_speed(&mk("fast")), 0);
    assert_eq!(link_speed(&mk("5 GB/s")), 0);
}

#[test]
fn link_speeds_in_exponent_notation() {
    let mk = |s: &str| {
        let mut item = entry("x", "0x00100000");
        item.link_speed = Some(s.to_string());
        item
    };
    assert_eq!(link_speed(&mk("1e1 Gb/s")), 10_000_000);
    assert_eq!(link_speed(&mk("4.8E+2 Mb/s")), 480_000);
    assert_eq!(link_speed(&mk("0.0001 Mb/s")), 1);
    assert_eq!(link_speed(&mk("inf Mb/s")), u64::MAX);
    assert_eq!(link_speed(&mk("-5 Mb/s")), 0);
    assert_eq!(link_speed(&mk("-0 Mb/s")), 0);
}
