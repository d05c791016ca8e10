use uwhat::query::{parse_device_filter, Query};

#[test]
fn device_filter_full_pair() {
    let f = parse_device_filter("046d:c52b").unwrap();
    assert_eq!(f.vendor, Some(0x046d));
    assert_eq!(f.product, Some(0xc52b));
}

#[test]
fn device_filter_accepts_uppercase() {
    let f = parse_device_filter("046D:C52B").unwrap();
    assert_eq!(f.vendor, Some(0x046d));
    assert_eq!(f.product, Some(0xc52b));
}

#[test]
fn device_filter_vendor_only() {
    let f = parse_device_filter("046d:").unwrap();
    assert_eq!(f.vendor, Some(0x046d));
    assert_eq!(f.product, None);
}

#[test]
fn device_filter_product_only() {
    let f = parse_device_filter(":c52b").unwrap();
    assert_eq!(f.vendor, None);
    assert_eq!(f.product, Some(0xc52b));
}

#[test]
fn query_parses_id_syntax_as_id_filter() {
    assert!(matches!(Query::parse("046d:c52b"), Query::Id(_)));
    assert!(matches!(Query::parse("046d:"), Query::Id(_)));
    assert!(matches!(Query::parse(":c52b"), Query::Id(_)));
}

#[test]
fn query_falls_back_to_lowercased_name_search() {
    let Query::Name(q) = Query::parse("Mouse") else {
        panic!("expected name query");
    };
    assert_eq!(q, "mouse");
    // A colon alone is not a valid ID filter, so it is a name search
    assert!(matches!(Query::parse(":"), Query::Name(_)));
}

#[test]
fn device_filter_rejects_invalid() {
    assert!(parse_device_filter(":").is_none());
    assert!(parse_device_filter("").is_none());
    assert!(parse_device_filter("046d").is_none());
    assert!(parse_device_filter("xx:yy").is_none());
    assert!(parse_device_filter("046d:c52b:0").is_none());
    assert!(parse_device_filter("12345:c52b").is_none());
}

#[test]
fn device_filter_sign_and_space_handling() {
    // `from_str_radix` takes an optional leading '+', but no spaces
    assert_eq!(parse_device_filter("+46d:c52b").unwrap().vendor, Some(0x046d));
    assert!(parse_device_filter(" 46d:c52b").is_none());
    assert_eq!(parse_device_filter("46d:0").unwrap().vendor, Some(0x046d));
}

#[test]
fn name_query_lowercases_beyond_ascii() {
    let Query::Name(q) = Query::parse("ÄÖÜ Hub") else {
        panic!("expected name query");
    };
    assert_eq!(q, "äöü hub");
}
