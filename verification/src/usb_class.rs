//! Human-readable names for USB class codes and link speeds.
use vstd::prelude::*;

verus! {

/// The name of a device class code.
pub open spec fn class_name_spec(class: u8) -> Seq<char> {
    if class == 0x00 {
        "Per Interface"@
    } else if class == 0x01 {
        "Audio"@
    } else if class == 0x02 {
        "Communications"@
    } else if class == 0x03 {
        "HID"@
    } else if class == 0x05 {
        "Physical"@
    } else if class == 0x06 {
        "Image"@
    } else if class == 0x07 {
        "Printer"@
    } else if class == 0x08 {
        "Mass Storage"@
    } else if class == 0x09 {
        "Hub"@
    } else if class == 0x0a {
        "CDC-Data"@
    } else if class == 0x0b {
        "Smart Card"@
    } else if class == 0x0d {
        "Content Security"@
    } else if class == 0x0e {
        "Video"@
    } else if class == 0x0f {
        "Healthcare"@
    } else if class == 0x10 {
        "Audio/Video"@
    } else if class == 0xdc {
        "Diagnostic"@
    } else if class == 0xe0 {
        "Wireless"@
    } else if class == 0xef {
        "Miscellaneous"@
    } else if class == 0xfe {
        "Application Specific"@
    } else if class == 0xff {
        "Vendor Specific"@
    } else {
        "Unknown"@
    }
}

/// Human-readable name for a USB device class code.
pub fn class_name(class: u8) -> (r: &'static str)
    ensures
        r@ == class_name_spec(class),
{
    match class {
        0x00 => "Per Interface",
        0x01 => "Audio",
        0x02 => "Communications",
        0x03 => "HID",
        0x05 => "Physical",
        0x06 => "Image",
        0x07 => "Printer",
        0x08 => "Mass Storage",
        0x09 => "Hub",
        0x0a => "CDC-Data",
        0x0b => "Smart Card",
        0x0d => "Content Security",
        0x0e => "Video",
        0x0f => "Healthcare",
        0x10 => "Audio/Video",
        0xdc => "Diagnostic",
        0xe0 => "Wireless",
        0xef => "Miscellaneous",
        0xfe => "Application Specific",
        0xff => "Vendor Specific",
        _ => "Unknown",
    }
}

/// The name of an interface class triple: specific names for the
/// subclasses and protocols that have one, else the class's name.
pub open spec fn interface_class_name_spec(class: u8, subclass: u8, protocol: u8) -> Seq<char> {
    if class == 0x03 {
        if subclass == 0x01 && protocol == 0x01 {
            "Keyboard"@
        } else if subclass == 0x01 && protocol == 0x02 {
            "Mouse"@
        } else {
            "HID"@
        }
    } else if class == 0x08 {
        if subclass == 0x06 {
            "Mass Storage (SCSI)"@
        } else if subclass == 0x04 {
            "Mass Storage (UFI)"@
        } else {
            "Mass Storage"@
        }
    } else if class == 0x0e {
        if subclass == 0x01 {
            "Video Control"@
        } else if subclass == 0x02 {
            "Video Streaming"@
        } else {
            "Video"@
        }
    } else if class == 0x01 {
        if subclass == 0x01 {
            "Audio Control"@
        } else if subclass == 0x02 {
            "Audio Streaming"@
        } else if subclass == 0x03 {
            "MIDI Streaming"@
        } else {
            "Audio"@
        }
    } else if class == 0x02 {
        if subclass == 0x02 {
            "Modem"@
        } else if subclass == 0x06 {
            "Ethernet"@
        } else if subclass == 0x0d {
            "Network (NCM)"@
        } else {
            "Communications"@
        }
    } else if class == 0x0a {
        "CDC-Data"@
    } else if class == 0x07 {
        "Printer"@
    } else if class == 0x09 {
        "Hub"@
    } else if class == 0xe0 {
        if subclass == 0x01 && protocol == 0x01 {
            "Bluetooth"@
        } else {
            "Wireless"@
        }
    } else if class == 0xfe {
        if subclass == 0x01 {
            "DFU"@
        } else {
            "Application Specific"@
        }
    } else if class == 0xff {
        "Vendor Specific"@
    } else {
        class_name_spec(class)
    }
}

/// Human-readable name for a USB interface class code.
pub fn interface_class_name(class: u8, subclass: u8, protocol: u8) -> (r: &'static str)
    ensures
        r@ == interface_class_name_spec(class, subclass, protocol),
{
    match (class, subclass, protocol) {
        (0x03, 0x01, 0x01) => "Keyboard",
        (0x03, 0x01, 0x02) => "Mouse",
        (0x03, _, _) => "HID",
        (0x08, 0x06, _) => "Mass Storage (SCSI)",
        (0x08, 0x04, _) => "Mass Storage (UFI)",
        (0x08, _, _) => "Mass Storage",
        (0x0e, 0x01, _) => "Video Control",
        (0x0e, 0x02, _) => "Video Streaming",
        (0x0e, _, _) => "Video",
        (0x01, 0x01, _) => "Audio Control",
        (0x01, 0x02, _) => "Audio Streaming",
        (0x01, 0x03, _) => "MIDI Streaming",
        (0x01, _, _) => "Audio",
        (0x02, 0x02, _) => "Modem",
        (0x02, 0x06, _) => "Ethernet",
        (0x02, 0x0d, _) => "Network (NCM)",
        (0x02, _, _) => "Communications",
        (0x0a, _, _) => "CDC-Data",
        (0x07, _, _) => "Printer",
        (0x09, _, _) => "Hub",
        (0xe0, 0x01, 0x01) => "Bluetooth",
        (0xe0, _, _) => "Wireless",
        (0xfe, 0x01, _) => "DFU",
        (0xfe, _, _) => "Application Specific",
        (0xff, _, _) => "Vendor Specific",
        _ => class_name(class),
    }
}

/// The speed tier of a link speed in kbit/s: 0 unknown, then 1.5 Mbps,
/// 12 Mbps, 480 Mbps, 5 Gbps, 10 Gbps and anything faster.
pub open spec fn speed_tier(speed: u64) -> nat {
    if speed == 0 {
        0
    } else if speed <= 1500 {
        1
    } else if speed <= 12_000 {
        2
    } else if speed <= 480_000 {
        3
    } else if speed <= 5_000_000 {
        4
    } else if speed <= 10_000_000 {
        5
    } else {
        6
    }
}

/// Long label of each speed tier.
pub open spec fn speed_label_spec(speed: u64) -> Seq<char> {
    let t = speed_tier(speed);
    if t == 0 {
        "unknown speed"@
    } else if t == 1 {
        "Low Speed (1.5 Mbps)"@
    } else if t == 2 {
        "Full Speed (12 Mbps)"@
    } else if t == 3 {
        "High Speed (480 Mbps)"@
    } else if t == 4 {
        "SuperSpeed (5 Gbps)"@
    } else if t == 5 {
        "SuperSpeed+ (10 Gbps)"@
    } else {
        "SuperSpeed+ (20 Gbps)"@
    }
}

/// Short label of each speed tier.
pub open spec fn speed_short_spec(speed: u64) -> Seq<char> {
    let t = speed_tier(speed);
    if t == 0 {
        "unknown"@
    } else if t == 1 {
        "1.5 Mbps"@
    } else if t == 2 {
        "12 Mbps"@
    } else if t == 3 {
        "480 Mbps"@
    } else if t == 4 {
        "5 Gbps"@
    } else if t == 5 {
        "10 Gbps"@
    } else {
        "20 Gbps"@
    }
}

/// Human-readable speed label for a speed in kbit/s. A speed of zero means
/// the backend could not determine it — that is reported as unknown rather
/// than as the slowest USB speed.
pub fn speed_label(speed: u64) -> (r: &'static str)
    ensures
        r@ == speed_label_spec(speed),
{
    if speed == 0 {
        "unknown speed"
    } else if speed <= 1500 {
        "Low Speed (1.5 Mbps)"
    } else if speed <= 12_000 {
        "Full Speed (12 Mbps)"
    } else if speed <= 480_000 {
        "High Speed (480 Mbps)"
    } else if speed <= 5_000_000 {
        "SuperSpeed (5 Gbps)"
    } else if speed <= 10_000_000 {
        "SuperSpeed+ (10 Gbps)"
    } else {
        "SuperSpeed+ (20 Gbps)"
    }
}

/// Short speed label for compact display, for a speed in kbit/s. Zero means
/// unknown, see [`speed_label`].
pub fn speed_short(speed: u64) -> (r: &'static str)
    ensures
        r@ == speed_short_spec(speed),
{
    if speed == 0 {
        "unknown"
    } else if speed <= 1500 {
        "1.5 Mbps"
    } else if speed <= 12_000 {
        "12 Mbps"
    } else if speed <= 480_000 {
        "480 Mbps"
    } else if speed <= 5_000_000 {
        "5 Gbps"
    } else if speed <= 10_000_000 {
        "10 Gbps"
    } else {
        "20 Gbps"
    }
}

} // verus!
