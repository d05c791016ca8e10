use uwhat::usb_class::{class_name, interface_class_name, speed_label, speed_short};

#[test]
fn unknown_speed_is_not_reported_as_low_speed() {
    assert_eq!(speed_short(0), "unknown");
    assert_eq!(speed_label(0), "unknown speed");
    // The slowest real USB speed still reports as such
    assert_eq!(speed_short(1500), "1.5 Mbps");
    assert_eq!(speed_label(1500), "Low Speed (1.5 Mbps)");
}

#[test]
fn speed_tiers_round_up_to_the_next_label() {
    assert_eq!(speed_short(12_000), "12 Mbps");
    assert_eq!(speed_short(480_000), "480 Mbps");
    assert_eq!(speed_short(480_001), "5 Gbps");
    assert_eq!(speed_short(10_000_000), "10 Gbps");
    assert_eq!(speed_short(40_000_000), "20 Gbps");
    assert_eq!(speed_label(5_000_000), "SuperSpeed (5 Gbps)");
    assert_eq!(speed_label(20_000_000), "SuperSpeed+ (20 Gbps)");
}

#[test]
fn class_names() {
    assert_eq!(class_name(0x09), "Hub");
    assert_eq!(class_name(0x04), "Unknown");
    assert_eq!(interface_class_name(0x03, 0x01, 0x01), "Keyboard");
    assert_eq!(interface_class_name(0x03, 0x00, 0x00), "HID");
    assert_eq!(interface_class_name(0x08, 0x06, 0x50), "Mass Storage (SCSI)");
    assert_eq!(interface_class_name(0xe0, 0x01, 0x01), "Bluetooth");
    // Falls back to the device class name
    assert_eq!(interface_class_name(0x0b, 0x00, 0x00), "Smart Card");
}
