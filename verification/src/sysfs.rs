//! Linux sysfs backend: turning the attribute files of a device directory
//! into a [`UsbDevice`]. Reading the files is the caller's part; this module
//! decides what their contents mean.
use vstd::prelude::*;

use crate::device::{port_sep, port_sep_chars, ClassCode, PeerMap, Scan, UsbDevice, UsbInterface};
use crate::sort::{sort_by_key, sorted_by_key};
use crate::text::{
    chars_of, concat, contains, contains_spec, copy_range, dec, dec_spec, find_char, find_char_spec,
    lemma_dec_spec_reads_back,
    parse_bounded_spec, parse_real_scaled, real_text_spec, scaled_ceil, parse_u16, parse_u8, rfind_char, rfind_char_spec,
    starts_with, starts_with_spec, string_of, trim, trim_spec,
};
use crate::usb_ids::{product_key, UsbIds};

verus! {

/// The raw contents of a device directory's attribute files, `None` where a
/// file could not be read.
pub struct DeviceAttrs {
    pub id_vendor: Option<String>,
    pub id_product: Option<String>,
    pub busnum: Option<String>,
    pub devnum: Option<String>,
    pub devpath: Option<String>,
    pub speed: Option<String>,
    pub version: Option<String>,
    pub device_class: Option<String>,
    pub device_subclass: Option<String>,
    pub device_protocol: Option<String>,
    pub num_interfaces: Option<String>,
    pub manufacturer: Option<String>,
    pub product: Option<String>,
    pub serial: Option<String>,
    pub max_power: Option<String>,
    pub removable: Option<String>,
    pub maxchild: Option<String>,
}

/// The raw contents of an interface directory's attribute files.
pub struct InterfaceAttrs {
    pub number: Option<String>,
    pub class: Option<String>,
    pub subclass: Option<String>,
    pub protocol: Option<String>,
    pub num_endpoints: Option<String>,
}

/// An attribute's value: its file content trimmed, `None` when unreadable or
/// blank.
pub open spec fn attr_spec(raw: Option<String>) -> Option<Seq<char>> {
    match raw {
        Some(s) => if trim_spec(s@).len() == 0 {
            None
        } else {
            Some(trim_spec(s@))
        },
        None => None,
    }
}

/// An attribute read as a number in `radix` no larger than `max`.
pub open spec fn num_attr_spec(raw: Option<String>, radix: nat, max: nat) -> Option<nat> {
    match attr_spec(raw) {
        Some(v) => parse_bounded_spec(v, radix, max),
        None => None,
    }
}

/// An attribute's value: its file content trimmed, `None` when unreadable or
/// blank.
pub fn read_attr(raw: &Option<String>) -> (r: Option<Vec<char>>)
    ensures
        r matches Some(v) ==> attr_spec(*raw) == Some(v@),
        r is None ==> attr_spec(*raw) is None,
{
    match raw {
        Some(s) => {
            let cs = chars_of(s.as_str());
            let t = trim(cs.as_slice());
            if t.len() == 0 {
                None
            } else {
                Some(t)
            }
        },
        None => None,
    }
}

fn opt_string(v: Option<Vec<char>>) -> (r: Option<String>)
    ensures
        match v {
            Some(x) => r matches Some(s) && s@ == x@,
            None => r is None,
        },
{
    match v {
        Some(x) => Some(string_of(x.as_slice())),
        None => None,
    }
}

/// A hex attribute as `u16`.
pub fn read_hex(raw: &Option<String>) -> (r: Option<u16>)
    ensures
        r matches Some(v) ==> num_attr_spec(*raw, 16, 0xffff) == Some(v as nat),
        r is None ==> num_attr_spec(*raw, 16, 0xffff) is None,
{
    match read_attr(raw) {
        Some(v) => parse_u16(v.as_slice(), 16),
        None => None,
    }
}

/// A hex attribute as `u8`.
pub fn read_hex_u8(raw: &Option<String>) -> (r: Option<u8>)
    ensures
        r matches Some(v) ==> num_attr_spec(*raw, 16, 0xff) == Some(v as nat),
        r is None ==> num_attr_spec(*raw, 16, 0xff) is None,
{
    match read_attr(raw) {
        Some(v) => parse_u8(v.as_slice(), 16),
        None => None,
    }
}

/// A decimal attribute as `u8`.
pub fn read_decimal(raw: &Option<String>) -> (r: Option<u8>)
    ensures
        r matches Some(v) ==> num_attr_spec(*raw, 10, 0xff) == Some(v as nat),
        r is None ==> num_attr_spec(*raw, 10, 0xff) is None,
{
    match read_attr(raw) {
        Some(v) => parse_u8(v.as_slice(), 10),
        None => None,
    }
}

/// The speed attribute ("1.5", "480", "5000"; in Mbps, any number that
/// `str::parse` reads for a real-valued type) in kbit/s, as
/// [`scaled_ceil`] rounds it.
pub open spec fn speed_attr_spec(raw: Option<String>) -> Option<nat> {
    match attr_spec(raw) {
        Some(v) => match real_text_spec(v) {
            Some(t) => Some(scaled_ceil(t, 3)),
            None => None,
        },
        None => None,
    }
}

/// "usb" as characters.
pub open spec fn usb_word() -> Seq<char> {
    seq!['u', 's', 'b']
}

/// The name of the port a device hangs off: "2-3.1" sits on port 1 of hub
/// "2-3" ("2-3-port1"), top-level "2-4" on port 4 of the root hub
/// ("usb2-port4"). Root hubs (devpath "0") have no parent port.
pub open spec fn parent_port_name_spec(node_key: Seq<char>, bus: u8, devpath: Seq<char>) -> Option<
    Seq<char>,
> {
    if devpath == seq!['0'] {
        None
    } else {
        match rfind_char_spec(node_key, '.') {
            Some(i) => Some(node_key.take(i) + port_sep() + node_key.skip(i + 1)),
            None => match find_char_spec(node_key, '-') {
                Some(i) => Some(usb_word() + dec_spec(bus as nat) + port_sep() + node_key.skip(
                    i + 1,
                )),
                None => None,
            },
        }
    }
}

/// The sysfs name of the port a device hangs off, see
/// [`parent_port_name_spec`].
pub fn parent_port_name(node_key: &[char], bus: u8, devpath: &[char]) -> (r: Option<String>)
    ensures
        r matches Some(s) ==> parent_port_name_spec(node_key@, bus, devpath@) == Some(s@),
        r is None ==> parent_port_name_spec(node_key@, bus, devpath@) is None,
{
    if devpath.len() == 1 && devpath[0] == '0' {
        assert(devpath@ =~= seq!['0']);
        return None;
    }
    let sep = port_sep_chars();
    let klen = node_key.len();
    match rfind_char(node_key, '.') {
        Some(i) => {
            proof {
                crate::device::lemma_rfind_char_in_range(node_key@, '.');
            }
            let parent = copy_range(node_key, 0, i);
            let port = copy_range(node_key, i + 1, klen);
            let a = concat(parent.as_slice(), sep.as_slice());
            let b = concat(a.as_slice(), port.as_slice());
            assert(b@ =~= node_key@.take(i as int) + port_sep() + node_key@.skip(i + 1));
            Some(string_of(b.as_slice()))
        },
        None => match find_char(node_key, '-') {
            Some(i) => {
                let mut usb: Vec<char> = Vec::new();
                usb.push('u');
                usb.push('s');
                usb.push('b');
                let num = dec(bus as u64);
                let port = copy_range(node_key, i + 1, klen);
                let a = concat(usb.as_slice(), num.as_slice());
                let b = concat(a.as_slice(), sep.as_slice());
                let c = concat(b.as_slice(), port.as_slice());
                assert(usb@ =~= usb_word());
                assert(c@ =~= usb_word() + dec_spec(bus as nat) + port_sep() + node_key@.skip(
                    i + 1,
                ));
                Some(string_of(c.as_slice()))
            },
            None => None,
        },
    }
}

/// The name a database gives a vendor.
pub open spec fn ids_vendor(ids: UsbIds, vendor_id: u16) -> Option<Seq<char>> {
    if ids.vendor_map().contains_key(vendor_id) {
        Some(ids.vendor_map()[vendor_id])
    } else {
        None
    }
}

/// The name a database gives a product.
pub open spec fn ids_product(ids: UsbIds, vendor_id: u16, product_id: u16) -> Option<Seq<char>> {
    if ids.product_map().contains_key(product_key(vendor_id, product_id)) {
        Some(ids.product_map()[product_key(vendor_id, product_id)])
    } else {
        None
    }
}

/// Optional strings with the same characters.
pub open spec fn same_opt(a: Option<String>, b: Option<Seq<char>>) -> bool {
    match (a, b) {
        (Some(x), Some(y)) => x@ == y,
        (None, None) => true,
        _ => false,
    }
}

/// The device a sysfs directory describes. The IDs, bus and device
/// numbers, devpath, speed, version and class triple are required: without
/// any of them there is no device. Interfaces are read separately.
pub open spec fn device_from_attrs_spec(
    a: DeviceAttrs,
    node_key: Seq<char>,
    interfaces: Seq<UsbInterface>,
    ids: UsbIds,
    r: Option<UsbDevice>,
) -> bool {
    let vid = num_attr_spec(a.id_vendor, 16, 0xffff);
    let pid = num_attr_spec(a.id_product, 16, 0xffff);
    let bus = num_attr_spec(a.busnum, 10, 0xff);
    let devnum = num_attr_spec(a.devnum, 10, 0xff);
    let devpath = attr_spec(a.devpath);
    let speed = speed_attr_spec(a.speed);
    let version = attr_spec(a.version);
    let class = num_attr_spec(a.device_class, 16, 0xff);
    let subclass = num_attr_spec(a.device_subclass, 16, 0xff);
    let protocol = num_attr_spec(a.device_protocol, 16, 0xff);
    if vid is Some && pid is Some && bus is Some && devnum is Some && devpath is Some && speed is Some
        && version is Some && class is Some && subclass is Some && protocol is Some {
        &&& r matches Some(d)
        &&& d.node_key@ == node_key
        &&& d.bus as nat == bus->0
        &&& d.devnum as nat == devnum->0
        &&& d.devpath@ == devpath->0
        &&& d.vendor_id as nat == vid->0
        &&& d.product_id as nat == pid->0
        &&& same_opt(d.manufacturer, attr_spec(a.manufacturer))
        &&& same_opt(d.product, attr_spec(a.product))
        &&& same_opt(d.vendor_name, ids_vendor(ids, d.vendor_id))
        &&& same_opt(d.product_name, ids_product(ids, d.vendor_id, d.product_id))
        &&& same_opt(d.serial, attr_spec(a.serial))
        &&& d.speed as nat == speed->0
        &&& same_opt(d.usb_version, version)
        &&& d.device_class matches Some(c) && c.class as nat == class->0 && c.subclass as nat
            == subclass->0 && c.protocol as nat == protocol->0
        &&& same_opt(d.max_power, attr_spec(a.max_power))
        &&& d.num_interfaces == Some(
            match num_attr_spec(a.num_interfaces, 10, 0xff) {
                Some(n) => n as u8,
                None => 0u8,
            },
        )
        &&& same_opt(d.removable, attr_spec(a.removable))
        &&& d.max_children == match num_attr_spec(a.maxchild, 10, 0xff) {
            Some(n) => if n > 0 {
                Some(n as u8)
            } else {
                None
            },
            None => None,
        }
        &&& d.interfaces matches Some(v) && v@ == interfaces
        &&& d.pci_slot is None
        &&& same_opt(d.parent_port, parent_port_name_spec(node_key, d.bus, d.devpath@))
        &&& d.port_capability_known
    } else {
        r is None
    }
}

/// The bus and device numbers are the numbers the `busnum` and `devnum`
/// files spell in decimal: a file holding the decimal form of `n` (around
/// whitespace) gives `n`, whatever else the directory holds.
pub proof fn lemma_numbers_are_decimal(
    a: DeviceAttrs,
    node_key: Seq<char>,
    interfaces: Seq<UsbInterface>,
    ids: UsbIds,
    r: Option<UsbDevice>,
    bus: u8,
    devnum: u8,
)
    requires
        device_from_attrs_spec(a, node_key, interfaces, ids, r),
        a.busnum matches Some(s) && trim_spec(s@) == dec_spec(bus as nat),
        a.devnum matches Some(s) && trim_spec(s@) == dec_spec(devnum as nat),
    ensures
        r matches Some(d) ==> d.bus == bus && d.devnum == devnum,
{
    lemma_dec_spec_reads_back(bus as nat);
    lemma_dec_spec_reads_back(devnum as nat);
    assert(num_attr_spec(a.busnum, 10, 0xff) == Some(bus as nat));
    assert(num_attr_spec(a.devnum, 10, 0xff) == Some(devnum as nat));
}

fn name_of(n: Option<&str>) -> (r: Option<String>)
    ensures
        match n {
            Some(s) => r matches Some(x) && x@ == s@,
            None => r is None,
        },
{
    match n {
        Some(s) => Some(string_of(chars_of(s).as_slice())),
        None => None,
    }
}

/// Builds a device from its sysfs attributes (see
/// [`device_from_attrs_spec`]); `interfaces` are the device's interfaces
/// and the names come from `usb_ids`.
pub fn device_from_attrs(
    a: &DeviceAttrs,
    node_key: &str,
    interfaces: Vec<UsbInterface>,
    usb_ids: &UsbIds,
) -> (r: Option<UsbDevice>)
    ensures
        device_from_attrs_spec(*a, node_key@, interfaces@, *usb_ids, r),
{
    let vendor_id = match read_hex(&a.id_vendor) {
        Some(v) => v,
        None => return None,
    };
    let product_id = match read_hex(&a.id_product) {
        Some(v) => v,
        None => return None,
    };
    let bus = match read_decimal(&a.busnum) {
        Some(v) => v,
        None => return None,
    };
    let devnum = match read_decimal(&a.devnum) {
        Some(v) => v,
        None => return None,
    };
    let devpath = match read_attr(&a.devpath) {
        Some(v) => v,
        None => return None,
    };
    let speed = match read_attr(&a.speed) {
        Some(v) => match parse_real_scaled(v.as_slice(), 3) {
            Some(s) => s,
            None => return None,
        },
        None => return None,
    };
    let usb_version = match read_attr(&a.version) {
        Some(v) => v,
        None => return None,
    };
    let class = match read_hex_u8(&a.device_class) {
        Some(v) => v,
        None => return None,
    };
    let subclass = match read_hex_u8(&a.device_subclass) {
        Some(v) => v,
        None => return None,
    };
    let protocol = match read_hex_u8(&a.device_protocol) {
        Some(v) => v,
        None => return None,
    };
    let num_interfaces = match read_decimal(&a.num_interfaces) {
        Some(n) => n,
        None => 0,
    };
    let max_children = match read_decimal(&a.maxchild) {
        Some(n) => if n > 0 {
            Some(n)
        } else {
            None
        },
        None => None,
    };
    let key = chars_of(node_key);
    let parent_port = parent_port_name(key.as_slice(), bus, devpath.as_slice());
    Some(
        UsbDevice {
            node_key: string_of(key.as_slice()),
            bus,
            devnum,
            devpath: string_of(devpath.as_slice()),
            vendor_id,
            product_id,
            manufacturer: opt_string(read_attr(&a.manufacturer)),
            product: opt_string(read_attr(&a.product)),
            vendor_name: name_of(usb_ids.vendor_name(vendor_id)),
            product_name: name_of(usb_ids.product_name(vendor_id, product_id)),
            serial: opt_string(read_attr(&a.serial)),
            speed,
            usb_version: Some(string_of(usb_version.as_slice())),
            device_class: Some(ClassCode { class, subclass, protocol }),
            max_power: opt_string(read_attr(&a.max_power)),
            num_interfaces: Some(num_interfaces),
            removable: opt_string(read_attr(&a.removable)),
            max_children,
            interfaces: Some(interfaces),
            pci_slot: None,
            parent_port,
            port_capability_known: true,
        },
    )
}

/// The interface an interface directory describes: number, class, subclass
/// and protocol are required, a missing endpoint count reads as zero.
pub open spec fn interface_from_attrs_spec(
    a: InterfaceAttrs,
    driver: Option<String>,
    r: Option<UsbInterface>,
) -> bool {
    let number = num_attr_spec(a.number, 16, 0xff);
    let class = num_attr_spec(a.class, 16, 0xff);
    let subclass = num_attr_spec(a.subclass, 16, 0xff);
    let protocol = num_attr_spec(a.protocol, 16, 0xff);
    if number is Some && class is Some && subclass is Some && protocol is Some {
        r == Some(
            UsbInterface {
                number: number->0 as u8,
                class: class->0 as u8,
                subclass: subclass->0 as u8,
                protocol: protocol->0 as u8,
                num_endpoints: match num_attr_spec(a.num_endpoints, 16, 0xff) {
                    Some(n) => n as u8,
                    None => 0u8,
                },
                driver,
            },
        )
    } else {
        r is None
    }
}

/// Builds an interface from its sysfs attributes and bound driver.
pub fn interface_from_attrs(a: &InterfaceAttrs, driver: Option<String>) -> (r: Option<
    UsbInterface,
>)
    ensures
        interface_from_attrs_spec(*a, driver, r),
{
    let number = match read_hex_u8(&a.number) {
        Some(v) => v,
        None => return None,
    };
    let class = match read_hex_u8(&a.class) {
        Some(v) => v,
        None => return None,
    };
    let subclass = match read_hex_u8(&a.subclass) {
        Some(v) => v,
        None => return None,
    };
    let protocol = match read_hex_u8(&a.protocol) {
        Some(v) => v,
        None => return None,
    };
    let num_endpoints = match read_hex_u8(&a.num_endpoints) {
        Some(v) => v,
        None => 0,
    };
    Some(UsbInterface { number, class, subclass, protocol, num_endpoints, driver })
}

/// Interfaces keyed by their number.
pub open spec fn keyed_by_number(ifaces: Seq<UsbInterface>) -> Seq<(u64, UsbInterface)> {
    ifaces.map_values(|i: UsbInterface| (i.number as u64, i))
}

/// Interfaces stably sorted by interface number.
pub fn sort_interfaces(ifaces: Vec<UsbInterface>) -> (r: Vec<UsbInterface>)
    ensures
        r@ == sorted_by_key(keyed_by_number(ifaces@)).map_values(|p: (u64, UsbInterface)| p.1),
{
    let ghost orig = ifaces@;
    let mut rest = ifaces;
    let mut keyed: Vec<(u64, UsbInterface)> = Vec::new();
    let ghost done: int = 0;
    while rest.len() > 0
        invariant
            0 <= done <= orig.len(),
            rest@ == orig.skip(done),
            keyed@ == keyed_by_number(orig.take(done)),
        decreases rest@.len(),
    {
        let x = rest.remove(0);
        proof {
            assert(x == orig[done]);
            assert(rest@ =~= orig.skip(done + 1));
            assert(keyed_by_number(orig.take(done + 1)) =~= keyed_by_number(orig.take(done)).push(
                (x.number as u64, x),
            ));
            done = done + 1;
        }
        keyed.push((x.number as u64, x));
    }
    proof {
        assert(orig.take(done) =~= orig);
    }
    let sorted = sort_by_key(keyed);
    let ghost sv = sorted@;
    let mut rest2 = sorted;
    let mut out: Vec<UsbInterface> = Vec::new();
    let ghost taken: int = 0;
    while rest2.len() > 0
        invariant
            0 <= taken <= sv.len(),
            rest2@ == sv.skip(taken),
            out@ == sv.take(taken).map_values(|p: (u64, UsbInterface)| p.1),
        decreases rest2@.len(),
    {
        let p = rest2.remove(0);
        proof {
            assert(p == sv[taken]);
            assert(rest2@ =~= sv.skip(taken + 1));
            assert(sv.take(taken + 1).map_values(|p: (u64, UsbInterface)| p.1) =~= sv.take(
                taken,
            ).map_values(|p: (u64, UsbInterface)| p.1).push(p.1));
            taken = taken + 1;
        }
        out.push(p.1);
    }
    proof {
        assert(sv.take(taken) =~= sv);
    }
    out
}

/// The PCI slot a bus's root hub reports (its serial), the last such root
/// hub in the list winning.
pub open spec fn bus_slot(devices: Seq<UsbDevice>, bus: u8) -> Option<Seq<char>>
    decreases devices.len(),
{
    if devices.len() == 0 {
        None
    } else {
        let d = devices.last();
        if d.devpath@ == seq!['0'] && d.bus == bus && d.serial is Some {
            Some(d.serial->0@)
        } else {
            bus_slot(devices.drop_last(), bus)
        }
    }
}

fn find_bus_slot(devices: &Vec<UsbDevice>, bus: u8) -> (r: Option<String>)
    ensures
        same_opt(r, bus_slot(devices@, bus)),
{
    let mut i = devices.len();
    assert(devices@.take(i as int) =~= devices@);
    while i > 0
        invariant
            i <= devices@.len(),
            bus_slot(devices@, bus) == bus_slot(devices@.take(i as int), bus),
        decreases i,
    {
        let d = &devices[i - 1];
        proof {
            assert(devices@.take(i as int).drop_last() =~= devices@.take(i - 1));
            assert(devices@.take(i as int).last() == devices@[i - 1]);
        }
        if d.bus == bus && d.is_root_hub() {
            match &d.serial {
                Some(s) => {
                    return Some(string_of(chars_of(s.as_str()).as_slice()));
                },
                None => {},
            }
        }
        i = i - 1;
    }
    None
}

/// The devices with every device's PCI slot set from its bus's root hub.
pub open spec fn with_pci_slots(before: Seq<UsbDevice>, after: Seq<UsbDevice>) -> bool {
    &&& after.len() == before.len()
    &&& forall|i: int|
        0 <= i < before.len() ==> {
            let (a, b) = (#[trigger] before[i], after[i]);
            &&& same_opt(b.pci_slot, bus_slot(before, a.bus))
            &&& b == UsbDevice { pci_slot: b.pci_slot, ..a }
        }
}

/// Propagate the PCI slot from root hubs (their serial) to all devices on
/// that bus.
pub fn propagate_pci_slots(devices: &mut Vec<UsbDevice>)
    ensures
        with_pci_slots(old(devices)@, final(devices)@),
{
    let n = devices.len();
    let mut slots: Vec<Option<String>> = Vec::new();
    for i in 0..n
        invariant
            n == devices@.len(),
            slots@.len() == i,
            forall|j: int| 0 <= j < i ==> same_opt(#[trigger] slots@[j], bus_slot(devices@, devices@[j].bus)),
    {
        let s = find_bus_slot(devices, devices[i].bus);
        slots.push(s);
    }
    let ghost before = devices@;
    let mut rest: Vec<UsbDevice> = Vec::new();
    std::mem::swap(&mut rest, devices);
    let mut out: Vec<UsbDevice> = Vec::new();
    let mut slots_rest = slots;
    while rest.len() > 0
        invariant
            out@.len() + rest@.len() == before.len(),
            rest@ == before.skip(out@.len() as int),
            slots_rest@.len() == rest@.len(),
            forall|j: int| 0 <= j < slots_rest@.len() ==> same_opt(#[trigger] slots_rest@[j], bus_slot(before, before[out@.len() + j].bus)),
            forall|j: int| 0 <= j < out@.len() ==> {
                let (a, b) = (#[trigger] before[j], out@[j]);
                &&& same_opt(b.pci_slot, bus_slot(before, a.bus))
                &&& b == UsbDevice { pci_slot: b.pci_slot, ..a }
            },
        decreases rest@.len(),
    {
        let ghost slots_before = slots_rest@;
        let mut d = rest.remove(0);
        let s = slots_rest.remove(0);
        proof {
            assert(d == before[out@.len() as int]);
            assert(rest@ =~= before.skip(out@.len() as int + 1));
            assert(same_opt(s, bus_slot(before, before[out@.len() as int].bus)));
        }
        d.pci_slot = s;
        out.push(d);
        proof {
            assert forall|j: int| 0 <= j < slots_rest@.len() implies same_opt(#[trigger] slots_rest@[j], bus_slot(before, before[out@.len() + j].bus)) by {
                assert(slots_rest@[j] == slots_before[j + 1]);
            }
        }
    }
    *devices = out;
}

/// Assembles a scan from the devices read and the port peer links found:
/// each link is recorded in both directions, and every device gets the PCI
/// slot of its bus's root hub.
pub fn assemble_scan(devices: Vec<UsbDevice>, links: &Vec<(String, String)>) -> (r: Scan)
    ensures
        with_pci_slots(devices@, r.devices@),
        r.peers.map() == links_map(links@),
        r.peers.pairs() == links_pairs(links@),
{
    let mut devices = devices;
    propagate_pci_slots(&mut devices);
    let mut peers = PeerMap::new();
    let n = links.len();
    for i in 0..n
        invariant
            n == links@.len(),
            peers.map() == links_map(links@.take(i as int)),
            peers.pairs() == links_pairs(links@.take(i as int)),
    {
        proof {
            assert(links@.take(i + 1).drop_last() =~= links@.take(i as int));
            assert(links@.take(i + 1).last() == links@[i as int]);
        }
        let ghost p0 = peers.pairs();
        peers.insert(links[i].0.as_str(), links[i].1.as_str());
        proof {
            lemma_put_pair(p0, links@[i as int].0@, links@[i as int].1@, peers.pairs());
        }
        let ghost p1 = peers.pairs();
        peers.insert(links[i].1.as_str(), links[i].0.as_str());
        proof {
            lemma_put_pair(p1, links@[i as int].1@, links@[i as int].0@, peers.pairs());
        }
    }
    proof {
        assert(links@.take(n as int) =~= links@);
    }
    Scan { devices, peers }
}

/// The peer map that recording each (port, peer) link in both directions
/// gives, later links overriding earlier ones.
pub open spec fn links_map(links: Seq<(String, String)>) -> Map<Seq<char>, Seq<char>>
    decreases links.len(),
{
    if links.len() == 0 {
        Map::empty()
    } else {
        let (a, b) = links.last();
        links_map(links.drop_last()).insert(a@, b@).insert(b@, a@)
    }
}


/// Whether a directory entry of `/sys/bus/usb/devices` is a device: the
/// interface entries are the ones whose name holds a ':'.
pub fn is_device_entry(name: &str) -> (r: bool)
    ensures
        r == !name@.contains(':'),
{
    let c = chars_of(name);
    match find_char(c.as_slice(), ':') {
        Some(i) => {
            assert(name@[i as int] == ':');
            false
        },
        None => {
            proof {
                crate::text::lemma_find_char_none(name@, ':');
            }
            true
        },
    }
}

/// Whether a directory entry inside a device's directory is one of its
/// interfaces: its name begins with the device's node key and a ':'.
pub fn is_interface_of(entry: &str, node_key: &str) -> (r: bool)
    ensures
        r == starts_with_spec(entry@, node_key@.push(':')),
{
    let mut prefix = chars_of(node_key);
    prefix.push(':');
    let e = chars_of(entry);
    starts_with(e.as_slice(), prefix.as_slice())
}

/// Whether a directory entry inside an interface directory is a hub port:
/// its name holds "-port".
pub fn is_port_entry(name: &str) -> (r: bool)
    ensures
        r == contains_spec(name@, port_sep()),
{
    let c = chars_of(name);
    let sep = port_sep_chars();
    contains(c.as_slice(), sep.as_slice())
}


/// Position of the pair whose port is `a`, -1 when there is none.
pub open spec fn pair_index(ps: Seq<(Seq<char>, Seq<char>)>, a: Seq<char>) -> int
    decreases ps.len(),
{
    if ps.len() == 0 {
        -1
    } else if ps.last().0 == a {
        ps.len() - 1
    } else {
        pair_index(ps.drop_last(), a)
    }
}

/// The pairs after recording `b` as the peer of `a`: a known port keeps
/// its place, a new one comes last.
pub open spec fn put_pair(ps: Seq<(Seq<char>, Seq<char>)>, a: Seq<char>, b: Seq<char>) -> Seq<(Seq<char>, Seq<char>)> {
    let i = pair_index(ps, a);
    if i >= 0 {
        ps.update(i, (a, b))
    } else {
        ps.push((a, b))
    }
}

/// The pairs that recording each link in both directions gives.
pub open spec fn links_pairs(links: Seq<(String, String)>) -> Seq<(Seq<char>, Seq<char>)>
    decreases links.len(),
{
    if links.len() == 0 {
        seq![]
    } else {
        let (a, b) = links.last();
        put_pair(put_pair(links_pairs(links.drop_last()), a@, b@), b@, a@)
    }
}

proof fn lemma_pair_index(ps: Seq<(Seq<char>, Seq<char>)>, a: Seq<char>)
    ensures
        -1 <= pair_index(ps, a) < ps.len(),
        pair_index(ps, a) >= 0 ==> ps[pair_index(ps, a)].0 == a,
        pair_index(ps, a) < 0 ==> forall|i: int| 0 <= i < ps.len() ==> (#[trigger] ps[i]).0 != a,
    decreases ps.len(),
{
    if ps.len() > 0 && ps.last().0 != a {
        lemma_pair_index(ps.drop_last(), a);
        assert forall|i: int| 0 <= i < ps.len() - 1 implies ps[i] == ps.drop_last()[i] by {}
    }
}

proof fn lemma_put_pair(
    ps: Seq<(Seq<char>, Seq<char>)>,
    a: Seq<char>,
    b: Seq<char>,
    after: Seq<(Seq<char>, Seq<char>)>,
)
    requires
        forall|i: int| 0 <= i < ps.len() && (#[trigger] ps[i]).0 == a ==> after == ps.update(i, (a, b)),
        (forall|i: int| 0 <= i < ps.len() ==> (#[trigger] ps[i]).0 != a) ==> after == ps.push((a, b)),
    ensures
        after == put_pair(ps, a, b),
{
    lemma_pair_index(ps, a);
    let i = pair_index(ps, a);
    if i >= 0 {
        assert(ps[i].0 == a);
    }
}

} // verus!
