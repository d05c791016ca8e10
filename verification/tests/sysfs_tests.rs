use uwhat::device::UsbInterface;
use uwhat::sysfs::{
    assemble_scan, device_from_attrs, interface_from_attrs, is_device_entry, is_interface_of,
    is_port_entry, parent_port_name, read_hex, sort_interfaces, DeviceAttrs, InterfaceAttrs,
};
use uwhat::usb_ids::UsbIds;

fn file(s: &str) -> Option<String> {
    Some(format!("{s}\n"))
}

fn receiver_attrs() -> DeviceAttrs {
    DeviceAttrs {
        id_vendor: file("046d"),
        id_product: file("c52b"),
        busnum: file("5"),
        devnum: file("3"),
        devpath: file("2.1"),
        speed: file("12"),
        version: file(" 2.00"),
        device_class: file("00"),
        device_subclass: file("00"),
        device_protocol: file("00"),
        num_interfaces: file("3"),
        manufacturer: file("Logitech"),
        product: file("USB Receiver"),
        serial: None,
        max_power: file("98mA"),
        removable: file("removable"),
        maxchild: file("0"),
    }
}

fn iface(number: &str, class: &str) -> InterfaceAttrs {
    InterfaceAttrs {
        number: file(number),
        class: file(class),
        subclass: file("01"),
        protocol: file("02"),
        num_endpoints: None,
    }
}

#[test]
fn device_attributes_become_a_device() {
    let ids = UsbIds::parse("046d  Logitech, Inc.\n\tc52b  Unifying Receiver\n");
    let dev = device_from_attrs(&receiver_attrs(), "5-2.1", Vec::new(), &ids).unwrap();
    assert_eq!(dev.node_key, "5-2.1");
    assert_eq!((dev.bus, dev.devnum), (5, 3));
    assert_eq!(dev.devpath, "2.1");
    assert_eq!((dev.vendor_id, dev.product_id), (0x046d, 0xc52b));
    assert_eq!(dev.speed, 12_000);
    assert_eq!(dev.usb_version.as_deref(), Some("2.00"));
    assert_eq!(dev.num_interfaces, Some(3));
    assert_eq!(dev.max_children, None); // "0" ports is not a hub
    assert_eq!(dev.vendor_name.as_deref(), Some("Logitech, Inc."));
    assert_eq!(dev.product_name.as_deref(), Some("Unifying Receiver"));
    assert_eq!(dev.parent_port.as_deref(), Some("5-2-port1"));
    assert!(dev.port_capability_known);
    assert!(dev.pci_slot.is_none());
    assert_eq!(dev.interfaces.as_ref().map(Vec::len), Some(0));
}

#[test]
fn required_attributes_missing_mean_no_device() {
    let mut a = receiver_attrs();
    a.speed = file("fast");
    assert!(device_from_attrs(&a, "5-2.1", Vec::new(), &UsbIds::empty()).is_none());
    let mut a = receiver_attrs();
    a.id_vendor = None;
    assert!(device_from_attrs(&a, "5-2.1", Vec::new(), &UsbIds::empty()).is_none());
    let mut a = receiver_attrs();
    a.devpath = file("   ");
    assert!(device_from_attrs(&a, "5-2.1", Vec::new(), &UsbIds::empty()).is_none());
}

#[test]
fn fractional_speeds_and_optional_counts() {
    let mut a = receiver_attrs();
    a.speed = file("1.5");
    a.num_interfaces = None;
    a.maxchild = file("4");
    let dev = device_from_attrs(&a, "5-2.1", Vec::new(), &UsbIds::empty()).unwrap();
    assert_eq!(dev.speed, 1500);
    assert_eq!(dev.num_interfaces, Some(0));
    assert_eq!(dev.max_children, Some(4));
}

#[test]
fn speeds_in_every_form_a_real_number_parse_takes() {
    let speed_of = |text: &str| {
        let mut a = receiver_attrs();
        a.speed = file(text);
        device_from_attrs(&a, "5-2.1", Vec::new(), &UsbIds::empty()).map(|d| d.speed)
    };
    assert_eq!(speed_of("1e3"), Some(1_000_000));
    assert_eq!(speed_of("5E+3"), Some(5_000_000));
    assert_eq!(speed_of("480."), Some(480_000));
    assert_eq!(speed_of(".5"), Some(500));
    assert_eq!(speed_of("+12"), Some(12_000));
    assert_eq!(speed_of("0.0001"), Some(1));
    assert_eq!(speed_of("5000000000"), Some(5_000_000_000_000));
    assert_eq!(speed_of("1e400"), Some(u64::MAX));
    assert_eq!(speed_of("inf"), Some(u64::MAX));
    assert_eq!(speed_of("NaN"), Some(u64::MAX));
    assert_eq!(speed_of("-5"), Some(0));
    assert_eq!(speed_of("-inf"), Some(0));
    assert_eq!(speed_of("-0"), Some(0));
    assert_eq!(speed_of("1e"), None);
    assert_eq!(speed_of("0x10"), None);
}

#[test]
fn parent_ports_follow_sysfs_names() {
    let key = |s: &str| s.chars().collect::<Vec<char>>();
    assert_eq!(parent_port_name(&key("2-3.1"), 2, &key("3.1")).as_deref(), Some("2-3-port1"));
    assert_eq!(parent_port_name(&key("2-4"), 2, &key("4")).as_deref(), Some("usb2-port4"));
    assert_eq!(parent_port_name(&key("usb2"), 2, &key("0")), None);
}

#[test]
fn interfaces_are_read_and_sorted_by_number() {
    let a = interface_from_attrs(&iface("02", "03"), Some("usbhid".to_string())).unwrap();
    let b = interface_from_attrs(&iface("00", "03"), None).unwrap();
    let c = interface_from_attrs(&iface("01", "08"), Some("usb-storage".to_string())).unwrap();
    assert_eq!(a.num_endpoints, 0);
    assert!(interface_from_attrs(&iface("zz", "03"), None).is_none());
    let sorted: Vec<UsbInterface> = sort_interfaces(vec![a, b, c]);
    let numbers: Vec<u8> = sorted.iter().map(|i| i.number).collect();
    assert_eq!(numbers, vec![0, 1, 2]);
    assert_eq!(sorted[1].class, 0x08);
}

#[test]
fn scan_assembly_links_both_ways_and_spreads_pci_slots() {
    let ids = UsbIds::empty();
    let mut root = receiver_attrs();
    root.devpath = file("0");
    root.serial = file("0000:00:14.0");
    let hub = device_from_attrs(&root, "usb5", Vec::new(), &ids).unwrap();
    let dev = device_from_attrs(&receiver_attrs(), "5-2.1", Vec::new(), &ids).unwrap();
    let links = vec![("usb5-port2".to_string(), "usb6-port2".to_string())];
    let scan = assemble_scan(vec![hub, dev], &links);
    assert_eq!(scan.devices[1].pci_slot.as_deref(), Some("0000:00:14.0"));
    assert_eq!(scan.peers.len(), 2);
    let key: Vec<char> = "usb6-port2".chars().collect();
    assert_eq!(scan.peers.get(&key).map(String::as_str), Some("usb5-port2"));
}

#[test]
fn directory_entry_names() {
    assert!(is_device_entry("5-2.1"));
    assert!(!is_device_entry("5-2.1:1.0"));
    assert!(is_interface_of("5-2:1.0", "5-2"));
    assert!(!is_interface_of("5-2.1:1.0", "5-2"));
    assert!(is_port_entry("5-2-port3"));
    assert!(!is_port_entry("power"));
}

#[test]
fn hex_attributes() {
    assert_eq!(read_hex(&file("046d")), Some(0x046d));
    assert_eq!(read_hex(&file("")), None);
    assert_eq!(read_hex(&None), None);
}
