use uwhat::device::{port_name, port_owner, sanitize, ClassCode, PeerMap, Scan, UsbDevice, UsbInterface};

fn test_device() -> UsbDevice {
    UsbDevice {
        node_key: "1-2".to_string(),
        bus: 1,
        devnum: 2,
        devpath: "2".to_string(),
        vendor_id: 0x046d,
        product_id: 0xc52b,
        manufacturer: Some("Logitech".to_string()),
        product: Some("USB Receiver".to_string()),
        vendor_name: Some("Logitech, Inc.".to_string()),
        product_name: Some("Unifying Receiver".to_string()),
        serial: None,
        speed: 12_000,
        usb_version: Some("2.00".to_string()),
        device_class: Some(ClassCode {
            class: 0,
            subclass: 0,
            protocol: 0,
        }),
        max_power: None,
        num_interfaces: Some(1),
        removable: None,
        max_children: None,
        interfaces: Some(vec![UsbInterface {
            number: 0,
            class: 0x03,
            subclass: 0x01,
            protocol: 0x02,
            num_endpoints: 1,
            driver: Some("usbhid".to_string()),
        }]),
        pci_slot: None,
        parent_port: Some("usb1-port2".to_string()),
        port_capability_known: true,
    }
}

#[test]
fn matches_text_searches_all_name_fields() {
    let dev = test_device();
    assert!(dev.matches_text("logitech"));
    assert!(dev.matches_text("receiver"));
    assert!(dev.matches_text("unifying"));
}

#[test]
fn matches_text_searches_drivers() {
    let dev = test_device();
    assert!(dev.matches_text("usbhid"));
}

#[test]
fn matches_text_rejects_non_matches() {
    let dev = test_device();
    assert!(!dev.matches_text("webcam"));
}

#[test]
fn matches_text_survives_missing_interface_data() {
    let mut dev = test_device();
    dev.interfaces = None;
    assert!(dev.matches_text("logitech"));
    assert!(!dev.matches_text("usbhid"));
}

#[test]
fn devpath_segments_sort_numerically() {
    let mut a = test_device();
    a.devpath = "1.10".to_string();
    let mut b = test_device();
    b.devpath = "1.2".to_string();
    assert!(a.devpath_segments() > b.devpath_segments());
}

#[test]
fn display_name_keeps_a_distinct_manufacturer() {
    let dev = test_device();
    assert_eq!(dev.display_name(), "Logitech USB Receiver");
}

#[test]
fn display_name_drops_a_manufacturer_the_product_repeats() {
    let mut dev = test_device();
    // Same word, different case
    dev.manufacturer = Some("Corsair".to_string());
    dev.product = Some("CORSAIR K70 RGB Keyboard".to_string());
    assert_eq!(dev.display_name(), "CORSAIR K70 RGB Keyboard");

    // Legal suffix in the manufacturer only
    dev.manufacturer = Some("Apple Inc.".to_string());
    dev.product = Some("Apple Internal Keyboard".to_string());
    assert_eq!(dev.display_name(), "Apple Internal Keyboard");

    // Word boundaries are respected: "VIA" is not part of "USB3.0 Hub"
    dev.manufacturer = Some("VIA Labs, Inc.".to_string());
    dev.product = Some("USB3.0 Hub".to_string());
    assert_eq!(dev.display_name(), "VIA Labs, Inc. USB3.0 Hub");
}

#[test]
fn display_name_falls_back_to_usb_ids_names() {
    let mut dev = test_device();
    dev.manufacturer = None;
    dev.product = None;
    assert_eq!(dev.display_name(), "Logitech, Inc. Unifying Receiver");

    dev.vendor_name = None;
    dev.product_name = None;
    assert_eq!(dev.display_name(), "046d:c52b");
}

#[test]
fn sanitize_strips_escape_sequences() {
    assert_eq!(sanitize("Evil\x1b]0;pwned\x07Device\n"), "Evil]0;pwnedDevice");
    assert_eq!(sanitize("  USB Receiver \n"), "USB Receiver");
    assert_eq!(sanitize("\x1b[2J\x1b[H"), "[2J[H");
}

#[test]
fn sanitize_strings_scrubs_every_device_supplied_field() {
    let mut dev = test_device();
    dev.manufacturer = Some("Log\x1b[31mitech".to_string());
    dev.product = Some("\x1b]0;pwned\x07Receiver".to_string());
    dev.serial = Some("\x1b\x1b".to_string()); // sanitizes to nothing
    dev.interfaces.as_mut().unwrap()[0].driver = Some("usb\x1bhid".to_string());

    let mut scan = Scan {
        devices: vec![dev],
        peers: PeerMap::new(),
    };
    scan.sanitize_strings();

    let dev = &scan.devices[0];
    assert_eq!(dev.manufacturer.as_deref(), Some("Log[31mitech"));
    assert_eq!(dev.product.as_deref(), Some("]0;pwnedReceiver"));
    assert_eq!(dev.serial, None);
    assert_eq!(dev.interface_list()[0].driver.as_deref(), Some("usbhid"));
}

#[test]
fn port_name_and_port_owner_round_trip() {
    assert_eq!(port_name("usb1", "3"), "usb1-port3");
    assert_eq!(port_name("1-2", "4"), "1-2-port4");
    assert_eq!(port_owner(&port_name("1-2.3", "4")).unwrap(), "1-2.3");
    assert_eq!(port_owner(&port_name("usb11", "1")).unwrap(), "usb11");
    assert_eq!(port_owner("usb1"), None);
}

#[test]
fn sanitize_is_idempotent_on_examples() {
    for s in ["Evil\x1b]0;pwned\x07Device\n", "  a \t b  ", "\u{85}x\u{9f}", ""] {
        let once = sanitize(s);
        assert_eq!(sanitize(&once), once);
    }
}

#[test]
fn port_owner_takes_the_last_separator() {
    // The owner keeps an inner "-port" of its own name
    assert_eq!(port_owner("a-port1-port2").as_deref(), Some("a-port1"));
    assert_eq!(port_owner(&port_name("x-port9", "1")).as_deref(), Some("x-port9"));
}

#[test]
fn unique_drivers_skip_hubs_and_repeats() {
    let mut dev = test_device();
    let iface = |n: u8, drv: Option<&str>| UsbInterface {
        number: n,
        class: 1,
        subclass: 1,
        protocol: 0,
        num_endpoints: 0,
        driver: drv.map(str::to_string),
    };
    dev.interfaces = Some(vec![
        iface(0, Some("snd-usb-audio")),
        iface(1, Some("hub")),
        iface(2, None),
        iface(3, Some("uvcvideo")),
        iface(4, Some("snd-usb-audio")),
    ]);
    assert_eq!(dev.unique_drivers(), vec!["snd-usb-audio".to_string(), "uvcvideo".to_string()]);
    dev.interfaces = None;
    assert!(dev.unique_drivers().is_empty());
}

#[test]
fn port_number_is_the_last_devpath_segment() {
    let mut dev = test_device();
    dev.devpath = "3.1.12".to_string();
    assert_eq!(dev.port_number(), Some(12));
    dev.devpath = "0".to_string();
    assert!(dev.is_root_hub());
    assert_eq!(dev.port_number(), None);
    dev.devpath = "2.x".to_string();
    assert_eq!(dev.port_number(), None);
}

#[test]
fn peer_map_insert_overrides_and_reads_back() {
    let mut peers = PeerMap::new();
    assert!(peers.is_empty());
    peers.insert("usb1-port1", "usb2-port1");
    peers.insert("usb2-port1", "usb1-port1");
    peers.insert("usb1-port1", "usb3-port1");
    assert_eq!(peers.len(), 2);
    let key: Vec<char> = "usb1-port1".chars().collect();
    assert_eq!(peers.get(&key).map(String::as_str), Some("usb3-port1"));
    let missing: Vec<char> = "usb9-port9".chars().collect();
    assert_eq!(peers.get(&missing), None);
}

#[test]
fn matches_text_lowercases_only_the_fields() {
    let dev = test_device();
    // The query is expected lowercased already; the fields are lowercased here
    assert!(dev.matches_text("usb receiver"));
    assert!(!dev.matches_text("USB"));
}
