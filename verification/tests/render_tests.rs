use uwhat::device::{ClassCode, PeerMap, UsbDevice, UsbInterface};
use uwhat::display::{controller_name, list_lines, tree_lines, ColorMode, Theme};
use uwhat::listing::{is_filtering, list_devices, select_controllers};
use uwhat::query::{parse_device_filter, DeviceFilter, Query};
use uwhat::record::{controller_record, device_record, device_records};
use uwhat::topology::build_physical_topology;

fn receiver() -> UsbDevice {
    UsbDevice {
        node_key: "1-2".to_string(),
        bus: 1,
        devnum: 2,
        devpath: "2".to_string(),
        vendor_id: 0x046d,
        product_id: 0xc52b,
        manufacturer: Some("Logitech".to_string()),
        product: Some("USB Receiver".to_string()),
        vendor_name: None,
        product_name: None,
        serial: None,
        speed: 12_000,
        usb_version: Some("2.00".to_string()),
        device_class: Some(ClassCode {
            class: 0,
            subclass: 0,
            protocol: 0,
        }),
        max_power: None,
        num_interfaces: Some(1),
        removable: None,
        max_children: None,
        interfaces: Some(vec![UsbInterface {
            number: 0,
            class: 0x03,
            subclass: 0x01,
            protocol: 0x02,
            num_endpoints: 1,
            driver: Some("usbhid".to_string()),
        }]),
        pci_slot: None,
        parent_port: Some("usb1-port2".to_string()),
        port_capability_known: true,
    }
}

fn root_hub(bus: u8, speed: u64, slot: Option<&str>) -> UsbDevice {
    UsbDevice {
        node_key: format!("usb{bus}"),
        bus,
        devnum: 1,
        devpath: "0".to_string(),
        vendor_id: 0x1d6b,
        product_id: 0x0002,
        manufacturer: Some("Linux 6.9 xhci-hcd".to_string()),
        product: Some("xHCI Host Controller".to_string()),
        vendor_name: None,
        product_name: None,
        serial: slot.map(str::to_string),
        speed,
        usb_version: Some("2.00".to_string()),
        device_class: Some(ClassCode {
            class: 9,
            subclass: 0,
            protocol: 1,
        }),
        max_power: Some("0mA".to_string()),
        num_interfaces: Some(1),
        removable: None,
        max_children: Some(4),
        interfaces: Some(vec![UsbInterface {
            number: 0,
            class: 9,
            subclass: 0,
            protocol: 0,
            num_endpoints: 1,
            driver: Some("hub".to_string()),
        }]),
        pci_slot: slot.map(str::to_string),
        parent_port: None,
        port_capability_known: true,
    }
}

fn no_filter() -> DeviceFilter {
    DeviceFilter { id: None, query: None }
}

#[test]
fn list_line_plain_and_verbose() {
    let devs = vec![receiver()];
    let lines = list_lines(&devs, 2, &Theme::new(false));
    assert_eq!(
        lines,
        vec![
            "Bus 001 Dev 002: 046d:c52b Logitech USB Receiver [Mouse]",
            "  Full Speed (12 Mbps), USB 2.00",
            "  Interfaces: usbhid (Mouse)",
            "  Class: 00:00:00 (Per Interface), 1 interface(s)",
            "  Interface 0: class 03:01:02, 1 endpoint(s), driver: usbhid",
        ]
    );
    assert_eq!(list_lines(&devs, 0, &Theme::new(false)).len(), 1);
}

#[test]
fn list_line_in_color() {
    let devs = vec![receiver()];
    let lines = list_lines(&devs, 0, &Theme::new(true));
    assert_eq!(
        lines,
        vec!["Bus 001 Dev 002: \x1b[36m046d:c52b\x1b[0m \x1b[1mLogitech USB Receiver\x1b[0m [\x1b[33mMouse\x1b[0m]"]
    );
}

#[test]
fn verbose_lines_omit_what_the_platform_does_not_report() {
    let mut dev = receiver();
    dev.usb_version = None;
    dev.device_class = None;
    dev.num_interfaces = None;
    dev.interfaces = None;
    dev.removable = Some("removable".to_string());
    dev.speed = 0;
    let lines = list_lines(&[dev], 2, &Theme::new(false));
    assert_eq!(
        lines,
        vec![
            "Bus 001 Dev 002: 046d:c52b Logitech USB Receiver",
            "  unknown speed",
            "  Removable: removable",
        ]
    );
}

#[test]
fn hub_class_labels_and_hub_ports() {
    let hub = root_hub(3, 480_000, Some("0000:00:14.0"));
    let lines = list_lines(&[hub], 2, &Theme::new(false));
    assert_eq!(lines[0], "Bus 003 Dev 001: 1d6b:0002 Linux 6.9 xhci-hcd xHCI Host Controller [Hub]");
    assert!(lines.contains(&"  Hub ports: 4".to_string()));
    assert!(lines.contains(&"  Serial: 0000:00:14.0".to_string()));
}

#[test]
fn tree_lines_plain_and_colored() {
    let devices = vec![root_hub(1, 480_000, None), receiver()];
    let controllers = build_physical_topology(&devices, &PeerMap::new());
    let plain = tree_lines(&controllers, 0, &Theme::new(false));
    assert_eq!(
        plain,
        vec![
            "Bus 001  xHCI Host Controller  480 Mbps",
            "└── Port  2:  046d:c52b  Logitech USB Receiver  12 Mbps  [usbhid]",
        ]
    );
    let color = tree_lines(&controllers, 0, &Theme::new(true));
    assert_eq!(
        color[1],
        "└── Port  2: \x1b[36m046d:c52b\x1b[0m \x1b[1mLogitech USB Receiver\x1b[0m \x1b[32m12 Mbps\x1b[0m \x1b[34m[usbhid]\x1b[0m"
    );
    let detailed = tree_lines(&controllers, 2, &Theme::new(false));
    assert_eq!(
        detailed,
        vec![
            "Bus 001  xHCI Host Controller  480 Mbps",
            "└── Port  2:  046d:c52b  Logitech USB Receiver  12 Mbps  [usbhid], USB 2.00",
            "        intf 0: Mouse (driver: usbhid)",
        ]
    );
}

#[test]
fn tree_marks_throttled_devices_and_nests_prefixes() {
    let mut hub = receiver();
    hub.node_key = "1-1".to_string();
    hub.devpath = "1".to_string();
    hub.parent_port = Some("usb1-port1".to_string());
    hub.product = Some("Hub".to_string());
    hub.manufacturer = None;
    hub.speed = 480_000;
    hub.interfaces = Some(Vec::new());
    let mut a = receiver();
    a.node_key = "1-1.1".to_string();
    a.devpath = "1.1".to_string();
    a.parent_port = Some("1-1-port1".to_string());
    let mut b = receiver();
    b.node_key = "1-1.3".to_string();
    b.devpath = "1.3".to_string();
    b.parent_port = Some("1-1-port3".to_string());
    let mut other = receiver();
    other.node_key = "1-4".to_string();
    other.devpath = "4".to_string();
    other.parent_port = Some("usb1-port4".to_string());
    other.speed = 480_000;
    let devices = vec![root_hub(1, 480_000, Some("s")), root_hub(2, 5_000_000, Some("s")), hub, a, b, other];
    let mut peers = PeerMap::new();
    peers.insert("usb1-port4", "usb2-port4");
    peers.insert("usb2-port4", "usb1-port4");
    let controllers = build_physical_topology(&devices, &peers);
    let lines = tree_lines(&controllers, 1, &Theme::new(false));
    assert_eq!(
        lines,
        vec![
            "Bus 002/001  xHCI Host Controller  5 Gbps  [s]",
            "├── Port  1:  046d:c52b  Hub  480 Mbps, USB 2.00",
            "│   ├── Port  1:  046d:c52b  Logitech USB Receiver  12 Mbps  [usbhid], USB 2.00",
            "│   └── Port  3:  046d:c52b  Logitech USB Receiver  12 Mbps  [usbhid], USB 2.00",
            "└── Port  4:  046d:c52b  Logitech USB Receiver  480 Mbps (of 5 Gbps)  [usbhid], USB 2.00",
        ]
    );
}

#[test]
fn controller_name_prefers_the_product() {
    let hub = root_hub(1, 480_000, None);
    assert_eq!(controller_name(&hub), "xHCI Host Controller");
    let mut bare = hub;
    bare.product = None;
    bare.manufacturer = None;
    assert_eq!(controller_name(&bare), "1d6b:0002");
}

#[test]
fn color_mode_decides() {
    assert!(ColorMode::Always.use_color(&Some("1".to_string()), false));
    assert!(!ColorMode::Never.use_color(&None, true));
    assert!(ColorMode::Auto.use_color(&None, true));
    assert!(ColorMode::Auto.use_color(&Some(String::new()), true));
    assert!(!ColorMode::Auto.use_color(&Some("1".to_string()), true));
    assert!(!ColorMode::Auto.use_color(&None, false));
}

#[test]
fn flat_list_hides_root_hubs_unless_filtering_and_sorts_numerically() {
    let mut a = receiver();
    a.devpath = "1.10".to_string();
    a.devnum = 5;
    let mut b = receiver();
    b.devpath = "1.2".to_string();
    b.devnum = 6;
    let mut c = receiver();
    c.bus = 0;
    c.devnum = 7;
    let devices = vec![root_hub(1, 480_000, None), a, b, c];
    let shown = list_devices(devices, &no_filter(), None);
    let nums: Vec<u8> = shown.iter().map(|d| d.devnum).collect();
    assert_eq!(nums, vec![7, 6, 5]);

    // A bare bus choice does not reveal root hubs
    let devices = vec![root_hub(1, 480_000, None), receiver()];
    let by_bus = list_devices(devices, &no_filter(), Some(1));
    assert_eq!(by_bus.len(), 1);
    assert!(!by_bus[0].is_root_hub());
    // ... but it still counts as filtering for the no-match exit status
    assert!(is_filtering(&no_filter(), Some(1)));
    assert!(!is_filtering(&no_filter(), None));
}

#[test]
fn flat_list_applies_id_and_name_filters() {
    let devices = vec![root_hub(1, 480_000, None), receiver()];
    let f = DeviceFilter {
        id: parse_device_filter("046d:"),
        query: Some(Query::parse("Receiver")),
    };
    let shown = list_devices(devices, &f, None);
    assert_eq!(shown.len(), 1);
    assert_eq!(shown[0].vendor_id, 0x046d);

    let devices = vec![root_hub(1, 480_000, None), receiver()];
    let f = DeviceFilter { id: None, query: Some(Query::parse("webcam")) };
    assert!(list_devices(devices, &f, None).is_empty());

    // A device filter that matches a root hub shows it
    let devices = vec![root_hub(1, 480_000, None), receiver()];
    let f = DeviceFilter { id: parse_device_filter("1d6b:"), query: None };
    let shown = list_devices(devices, &f, Some(1));
    assert_eq!(shown.len(), 1);
    assert!(shown[0].is_root_hub());
}

#[test]
fn tree_selection_prunes_and_drops_empty_controllers() {
    let devices = vec![root_hub(1, 480_000, None), receiver(), root_hub(2, 480_000, None)];
    let controllers = build_physical_topology(&devices, &PeerMap::new());
    assert_eq!(controllers.len(), 2);

    let f = DeviceFilter { id: None, query: Some(Query::parse("usbhid")) };
    let kept = select_controllers(controllers, &f, None);
    assert_eq!(kept.len(), 1);
    assert_eq!(kept[0].root_hubs[0].bus, 1);
    assert_eq!(kept[0].children.len(), 1);

    let controllers = build_physical_topology(&devices, &PeerMap::new());
    let on_two = select_controllers(controllers, &no_filter(), Some(2));
    assert_eq!(on_two.len(), 1);
    assert_eq!(on_two[0].root_hubs[0].bus, 2);
}

#[test]
fn records_carry_formatted_fields() {
    let r = device_record(&receiver());
    assert_eq!(r.vendor_id, "046d");
    assert_eq!(r.product_id, "c52b");
    assert_eq!(r.name, "Logitech USB Receiver");
    assert_eq!(r.speed, 12_000);
    assert_eq!(r.speed_label, "12 Mbps");
    assert_eq!(r.class.as_deref(), Some("00:00:00"));
    assert_eq!(r.class_name.as_deref(), Some("Per Interface"));
    assert_eq!(r.drivers, Some(vec!["usbhid".to_string()]));
    let ifaces = r.interfaces.unwrap();
    assert_eq!(ifaces[0].class, "03:01:02");
    assert_eq!(ifaces[0].class_name, "Mouse");

    let mut bare = receiver();
    bare.interfaces = None;
    bare.device_class = None;
    let r = device_record(&bare);
    assert!(r.interfaces.is_none());
    assert!(r.drivers.is_none());
    assert!(r.class.is_none() && r.class_name.is_none());
    assert_eq!(device_records(&[receiver(), bare]).len(), 2);
}

#[test]
fn controller_records_follow_the_tree() {
    let devices = vec![root_hub(2, 5_000_000, Some("s")), root_hub(1, 480_000, Some("s")), receiver()];
    let controllers = build_physical_topology(&devices, &PeerMap::new());
    let r = controller_record(&controllers[0]);
    assert_eq!(r.buses, vec![2, 1]);
    assert_eq!(r.name, "xHCI Host Controller");
    assert_eq!(r.speed, 5_000_000);
    assert_eq!(r.speed_label, "5 Gbps");
    assert_eq!(r.pci_slot.as_deref(), Some("s"));
    assert_eq!(r.devices.len(), 1);
    assert_eq!(r.devices[0].port, Some(2));
    assert_eq!(r.devices[0].port_max_speed, 480_000);
    assert!(!r.devices[0].speed_limited);
}
