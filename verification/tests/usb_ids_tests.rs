use uwhat::usb_ids::{parse_id_line, UsbIds};

const FIXTURE: &str = "\
# usb.ids fixture
046d  Logitech, Inc.
\tc52b  Unifying Receiver
\t\t01  some interface detail
05e3  Genesys Logic, Inc.
\t0608  Hub
äöü malformed multibyte line
C 03  HID
\t01  ignored after class section
";

#[test]
fn parses_vendors_and_products() {
    let ids = UsbIds::parse(FIXTURE);
    assert_eq!(ids.vendor_name(0x046d), Some("Logitech, Inc."));
    assert_eq!(ids.product_name(0x046d, 0xc52b), Some("Unifying Receiver"));
    assert_eq!(ids.vendor_name(0x05e3), Some("Genesys Logic, Inc."));
    assert_eq!(ids.product_name(0x05e3, 0x0608), Some("Hub"));
}

#[test]
fn stops_at_class_section() {
    let ids = UsbIds::parse(FIXTURE);
    assert_eq!(ids.product_name(0x05e3, 0x0001), None);
}

#[test]
fn survives_multibyte_garbage() {
    // Must not panic on non-ASCII bytes at the slice boundary
    let ids = UsbIds::parse("é234  bad\n0123  good\n");
    assert_eq!(ids.vendor_name(0x0123), Some("good"));
}

#[test]
fn empty_database_knows_no_names() {
    let ids = UsbIds::empty();
    assert_eq!(ids.vendor_name(0x046d), None);
    assert_eq!(ids.product_name(0x046d, 0xc52b), None);
}

#[test]
fn products_after_an_unparsable_vendor_are_dropped() {
    let ids = UsbIds::parse("zzzz  Broken\n\t0001  Orphan\n0002  Ok\n\t0003  Child\n");
    assert_eq!(ids.product_name(0x0002, 0x0003), Some("Child"));
    assert_eq!(ids.vendor_name(0x0002), Some("Ok"));
    assert_eq!(ids.vendor_name(0x0001), None);
}

#[test]
fn id_lines_need_a_name() {
    let line: Vec<char> = "046d  Logitech".chars().collect();
    assert_eq!(parse_id_line(&line), Some((0x046d, "Logitech".to_string())));
    let bare: Vec<char> = "046d   ".chars().collect();
    assert_eq!(parse_id_line(&bare), None);
    let short: Vec<char> = "04".chars().collect();
    assert_eq!(parse_id_line(&short), None);
}

#[test]
fn later_lines_override_earlier_ones_and_crlf_is_tolerated() {
    let ids = UsbIds::parse("0001  First\r\n0001  Second\r\n");
    assert_eq!(ids.vendor_name(0x0001), Some("Second"));
}
