use uwhat::device::{PeerMap, UsbDevice};
use uwhat::topology::build_physical_topology;

fn dev(
    node_key: &str,
    bus: u8,
    devpath: &str,
    speed: u64,
    parent_port: Option<&str>,
    pci_slot: Option<&str>,
) -> UsbDevice {
    UsbDevice {
        node_key: node_key.to_string(),
        bus,
        devnum: 1,
        devpath: devpath.to_string(),
        vendor_id: 0x1234,
        product_id: 0x5678,
        manufacturer: None,
        product: None,
        vendor_name: None,
        product_name: None,
        serial: None,
        speed,
        usb_version: Some("2.00".to_string()),
        device_class: None,
        max_power: None,
        num_interfaces: Some(0),
        removable: None,
        max_children: None,
        interfaces: Some(Vec::new()),
        pci_slot: pci_slot.map(str::to_string),
        parent_port: parent_port.map(str::to_string),
        port_capability_known: true,
    }
}

fn peers(pairs: &[(&str, &str)]) -> PeerMap {
    let mut map = PeerMap::new();
    for (a, b) in pairs {
        map.insert(a, b);
        map.insert(b, a);
    }
    map
}

#[test]
fn unpeered_port_is_not_speed_limited() {
    // Controller: usb1 (480) + usb2 (10000), only port 1 is dual-wired.
    let devices = vec![
        dev("usb1", 1, "0", 480_000, None, Some("slot")),
        dev("usb2", 2, "0", 10_000_000, None, Some("slot")),
        dev("1-1", 1, "1", 480_000, Some("usb1-port1"), Some("slot")),
        dev("1-2", 1, "2", 12_000, Some("usb1-port2"), Some("slot")),
    ];
    let peers = peers(&[("usb1-port1", "usb2-port1")]);

    let controllers = build_physical_topology(&devices, &peers);
    assert_eq!(controllers.len(), 1);
    let children = &controllers[0].children;
    assert_eq!(children.len(), 2);

    let on_dual = &children[0]; // port 1
    assert!(on_dual.speed_limited);
    assert_eq!(on_dual.port_max_speed, 10_000_000);

    let on_usb2_only = &children[1]; // port 2
    assert!(!on_usb2_only.speed_limited);
    assert_eq!(on_usb2_only.port_max_speed, 480_000);
}

#[test]
fn devices_on_unpeered_ports_with_same_number_do_not_merge() {
    let devices = vec![
        dev("usb1", 1, "0", 480_000, None, Some("slot")),
        dev("usb2", 2, "0", 5_000_000, None, Some("slot")),
        dev("1-2", 1, "2", 480_000, Some("usb1-port2"), Some("slot")),
        dev("2-2", 2, "2", 5_000_000, Some("usb2-port2"), Some("slot")),
    ];
    // Ports 2 of both buses are distinct physical connectors
    let peers = peers(&[("usb1-port1", "usb2-port1")]);

    let controllers = build_physical_topology(&devices, &peers);
    assert_eq!(controllers.len(), 1);
    assert_eq!(controllers[0].children.len(), 2);
}

#[test]
fn hub_instances_on_peered_ports_merge_to_fastest() {
    let devices = vec![
        dev("usb1", 1, "0", 480_000, None, Some("slot")),
        dev("usb2", 2, "0", 5_000_000, None, Some("slot")),
        dev("1-3", 1, "3", 480_000, Some("usb1-port3"), Some("slot")),
        dev("2-3", 2, "3", 5_000_000, Some("usb2-port3"), Some("slot")),
        // Device on the hub's USB 2.0 side, on a dual-wired hub port
        dev("1-3.1", 1, "3.1", 480_000, Some("1-3-port1"), Some("slot")),
    ];
    let peers = peers(&[("usb1-port3", "usb2-port3"), ("1-3-port1", "2-3-port1")]);

    let controllers = build_physical_topology(&devices, &peers);
    assert_eq!(controllers.len(), 1);
    assert_eq!(controllers[0].children.len(), 1);

    let hub = &controllers[0].children[0];
    assert_eq!(hub.device.node_key, "2-3");
    assert!(!hub.speed_limited);

    // The child hangs off the merged hub and its port supports 5 Gbps
    assert_eq!(hub.children.len(), 1);
    let child = &hub.children[0];
    assert_eq!(child.device.node_key, "1-3.1");
    assert!(child.speed_limited);
    assert_eq!(child.port_max_speed, 5_000_000);
}

#[test]
fn root_hub_without_pci_slot_still_forms_controller() {
    let devices = vec![
        dev("usb1", 1, "0", 480_000, None, None),
        dev("1-1", 1, "1", 12_000, Some("usb1-port1"), None),
    ];
    let controllers = build_physical_topology(&devices, &PeerMap::new());
    assert_eq!(controllers.len(), 1);
    assert!(controllers[0].pci_slot.is_none());
    assert_eq!(controllers[0].children.len(), 1);
}

#[test]
fn pci_slot_groups_buses_when_peer_links_are_missing() {
    // Fallback for kernels without port peering
    let devices = vec![
        dev("usb1", 1, "0", 480_000, None, Some("slot")),
        dev("usb2", 2, "0", 5_000_000, None, Some("slot")),
        dev("usb3", 3, "0", 480_000, None, Some("other")),
    ];
    let controllers = build_physical_topology(&devices, &PeerMap::new());
    assert_eq!(controllers.len(), 2);
    assert_eq!(controllers[0].root_hubs.len(), 2);
    assert_eq!(controllers[1].root_hubs.len(), 1);
}

#[test]
fn root_hubs_come_fastest_first_and_controllers_by_lowest_bus() {
    let devices = vec![
        dev("usb3", 3, "0", 480_000, None, Some("b")),
        dev("usb1", 1, "0", 480_000, None, Some("a")),
        dev("usb2", 2, "0", 10_000_000, None, Some("a")),
    ];
    let controllers = build_physical_topology(&devices, &PeerMap::new());
    assert_eq!(controllers.len(), 2);
    let buses: Vec<u8> = controllers[0].root_hubs.iter().map(|r| r.bus).collect();
    assert_eq!(buses, vec![2, 1]);
    assert_eq!(controllers[0].max_speed, 10_000_000);
    assert_eq!(controllers[0].pci_slot.as_deref(), Some("a"));
    assert_eq!(controllers[1].root_hubs[0].bus, 3);
}

#[test]
fn siblings_are_ordered_by_port_number() {
    let devices = vec![
        dev("usb1", 1, "0", 480_000, None, None),
        dev("1-10", 1, "10", 12_000, Some("usb1-port10"), None),
        dev("1-2", 1, "2", 12_000, Some("usb1-port2"), None),
    ];
    let controllers = build_physical_topology(&devices, &PeerMap::new());
    let keys: Vec<&str> = controllers[0].children.iter().map(|c| c.device.node_key.as_str()).collect();
    assert_eq!(keys, vec!["1-2", "1-10"]);
}

#[test]
fn unknown_port_wiring_gives_no_verdict() {
    let mut slow = dev("1-1", 1, "1", 480_000, Some("usb1-port1"), Some("slot"));
    slow.port_capability_known = false;
    let devices = vec![
        dev("usb1", 1, "0", 480_000, None, Some("slot")),
        dev("usb2", 2, "0", 10_000_000, None, Some("slot")),
        slow,
    ];
    let peers = peers(&[("usb1-port1", "usb2-port1")]);
    let controllers = build_physical_topology(&devices, &peers);
    let node = &controllers[0].children[0];
    assert_eq!(node.port_max_speed, 10_000_000);
    assert!(!node.speed_limited);
}

#[test]
fn devices_under_an_unreadable_hub_stay_under_their_controller() {
    // Hub "1-3" could not be read; its child and grandchild still show.
    let devices = vec![
        dev("usb1", 1, "0", 480_000, None, None),
        dev("1-1", 1, "1", 12_000, Some("usb1-port1"), None),
        dev("1-3.4", 1, "3.4", 480_000, Some("1-3-port4"), None),
        dev("1-3.4.2", 1, "3.4.2", 12_000, Some("1-3.4-port2"), None),
        dev("2-1.1", 2, "1.1", 12_000, Some("2-1-port1"), None),
    ];
    let controllers = build_physical_topology(&devices, &PeerMap::new());
    assert_eq!(controllers.len(), 1);
    let top: Vec<&str> = controllers[0].children.iter().map(|c| c.device.node_key.as_str()).collect();
    assert_eq!(top, vec!["1-1", "1-3.4"]);
    let stray = &controllers[0].children[1];
    assert_eq!(stray.port_max_speed, 0);
    assert!(!stray.speed_limited);
    assert_eq!(stray.children.len(), 1);
    assert_eq!(stray.children[0].device.node_key, "1-3.4.2");
}
