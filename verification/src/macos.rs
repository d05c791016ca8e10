//! macOS backend: the USB tree `system_profiler SPUSBHostDataType` reports,
//! mapped onto the same neutral [`Scan`] the Linux backend produces.
//!
//! macOS presents the merged physical topology already, so there are no
//! companion buses to merge and the peer map stays empty. Physical position
//! comes from the Apple location ID (e.g. `0x00143400`): the top byte is the
//! host controller, each following nibble (most significant first, until the
//! first zero) is a hub port. From that the same sysfs-shaped names (`usb1`,
//! `1-2.3`, `1-2-port3`) are synthesised, so the tree builder is shared.
use vstd::prelude::*;

use crate::device::{
    is_root_hub_spec, port_sep, port_sep_chars, sanitize, sanitize_spec, ClassCode, PeerMap, Scan, UsbDevice,
};
use crate::sysfs::{ids_product, ids_vendor, same_opt, usb_word};
use crate::text::{
    ascii_lowercase_spec, chars_of, concat, contains, contains_spec, copy_range, dec, dec_spec,
    digit_spec, digits_value, lemma_dec_spec_reads_back,
    eq_ignore_ascii_case, eq_ignore_ascii_case_spec, parse_bounded_spec,
    parse_real_scaled, real_text_spec, scaled_ceil, parse_u16, parse_u32, starts_with, starts_with_spec, string_of,
    to_ascii_lowercase, trim, trim_spec,
};
use crate::usb_ids::UsbIds;

verus! {

/// One entry of the `SPUSBHostDataType` tree, with the fields this backend
/// reads. A string field is `None` when the key is absent or its value is
/// not a string.
pub struct ProfilerItem {
    /// `_name`
    pub name: Option<String>,
    /// Whether the entry has a `USBDeviceKeyVendorID` key at all: entries
    /// with one are devices, the others controllers
    pub has_vendor_key: bool,
    /// `USBDeviceKeyVendorID`, e.g. "0x05ac"
    pub vendor_id: Option<String>,
    /// `USBDeviceKeyProductID`
    pub product_id: Option<String>,
    /// `USBDeviceKeyVendorName`
    pub vendor_name: Option<String>,
    /// `USBDeviceKeyLinkSpeed`, e.g. "480 Mb/s"
    pub link_speed: Option<String>,
    /// `USBKeyLocationID`, e.g. "0x00143400"
    pub location_id: Option<String>,
    /// `USBDeviceKeySerialNumber`
    pub serial: Option<String>,
    /// `USBKeyHardwareType`, e.g. "Removable"
    pub hardware_type: Option<String>,
    /// `_items`, when it is an array
    pub items: Option<Vec<ProfilerItem>>,
}

// ---------------------------------------------------------------------------
// Location IDs
// ---------------------------------------------------------------------------

/// The port nibbles of a location ID, from the nibble at `div` (a power of
/// 16) downwards, up to the first zero nibble.
pub open spec fn chain_from(raw: u32, div: u32) -> Seq<u8>
    decreases div,
{
    if div == 0 {
        seq![]
    } else {
        let n = (raw / div) % 16;
        if n == 0 {
            seq![]
        } else {
            seq![n as u8] + chain_from(raw, div / 16)
        }
    }
}

/// "0x" as characters.
pub open spec fn hex_prefix() -> Seq<char> {
    seq!['0', 'x']
}

/// An Apple location ID ("0x00143400") as (bus byte, port chain): the text
/// trimmed and without a leading "0x" parses as a hex `u32`; the top byte is
/// the bus and the port chain is read from the nibbles below it.
pub open spec fn decode_location_spec(loc: Seq<char>) -> Option<(u8, Seq<u8>)> {
    let t = trim_spec(loc);
    let hex = if starts_with_spec(t, hex_prefix()) {
        t.skip(2)
    } else {
        t
    };
    match parse_bounded_spec(hex, 16, 0xffff_ffff) {
        Some(raw) => Some(((raw / 0x100_0000) as u8, chain_from(raw as u32, 0x10_0000))),
        None => None,
    }
}

/// Decode an Apple location ID ("0x00143400") into (bus byte, port chain).
pub fn decode_location(loc: &str) -> (r: Option<(u8, Vec<u8>)>)
    ensures
        match r {
            Some((bus, chain)) => decode_location_spec(loc@) == Some((bus, chain@)),
            None => decode_location_spec(loc@) is None,
        },
{
    let cs = chars_of(loc);
    let t = trim(cs.as_slice());
    let mut prefix: Vec<char> = Vec::new();
    prefix.push('0');
    prefix.push('x');
    assert(prefix@ =~= hex_prefix());
    let hex = if starts_with(t.as_slice(), prefix.as_slice()) {
        copy_range(t.as_slice(), 2, t.len())
    } else {
        t
    };
    assert(hex@ =~= (if starts_with_spec(trim_spec(loc@), hex_prefix()) {
        trim_spec(loc@).skip(2)
    } else {
        trim_spec(loc@)
    }));
    let raw = match parse_u32(hex.as_slice(), 16) {
        Some(v) => v,
        None => return None,
    };
    let bus = (raw / 0x100_0000) as u8;
    let mut chain: Vec<u8> = Vec::new();
    let mut div: u32 = 0x10_0000;
    let mut stopped = false;
    // Nibbles below the bus byte, most significant first, until zero padding.
    while div > 0 && !stopped
        invariant
            chain@ + chain_from(raw, div) == chain_from(raw, 0x10_0000),
            stopped ==> chain_from(raw, div) == Seq::<u8>::empty(),
        decreases div, (if stopped { 0int } else { 1int }),
    {
        let nibble = ((raw / div) % 16) as u8;
        if nibble == 0 {
            stopped = true;
        } else {
        let ghost prev = chain@;
        chain.push(nibble);
        proof {
            assert(chain@ + chain_from(raw, div / 16) =~= prev + chain_from(raw, div));
        }
        div = div / 16;
        }
    }
    proof {
        assert(chain_from(raw, div) == Seq::<u8>::empty());
        assert(chain@ + chain_from(raw, div) =~= chain@);
        assert(raw / 0x100_0000 < 256);
    }
    Some((bus, chain))
}


// ---------------------------------------------------------------------------
// Names derived from the port chain
// ---------------------------------------------------------------------------

/// The port numbers of a chain joined by '.', e.g. [2, 3] -> "2.3".
pub open spec fn join_chain_spec(chain: Seq<u8>) -> Seq<char>
    decreases chain.len(),
{
    if chain.len() == 0 {
        seq![]
    } else if chain.len() == 1 {
        dec_spec(chain[0] as nat)
    } else {
        join_chain_spec(chain.drop_last()) + seq!['.'] + dec_spec(chain.last() as nat)
    }
}

/// The port numbers of a chain joined by '.', as characters.
pub fn join_chain_chars(chain: &[u8]) -> (r: Vec<char>)
    ensures
        r@ == join_chain_spec(chain@),
{
    let n = chain.len();
    let mut r: Vec<char> = Vec::new();
    assert(chain@.take(0) =~= Seq::<u8>::empty());
    for i in 0..n
        invariant
            n == chain@.len(),
            r@ == join_chain_spec(chain@.take(i as int)),
    {
        proof {
            assert(chain@.take(i + 1).drop_last() =~= chain@.take(i as int));
            assert(chain@.take(i + 1).last() == chain@[i as int]);
        }
        let d = dec(chain[i] as u64);
        if i == 0 {
            r = d;
            assert(chain@.take(1) =~= seq![chain@[0]]);
        } else {
            r.push('.');
            let x = concat(r.as_slice(), d.as_slice());
            r = x;
        }
    }
    proof {
        assert(chain@.take(n as int) =~= chain@);
    }
    r
}

/// The port numbers of a chain joined by '.', e.g. [2, 3] -> "2.3".
pub fn join_chain(chain: &[u8]) -> (r: String)
    ensures
        r@ == join_chain_spec(chain@),
{
    let c = join_chain_chars(chain);
    string_of(c.as_slice())
}

/// The sysfs-style parent port of a device at `chain` on bus `bus`:
/// `usb1-port3` under a root, `1-2.3-port4` under a nested hub.
pub open spec fn synth_parent_port_spec(bus: u8, chain: Seq<u8>) -> Option<Seq<char>> {
    if chain.len() == 0 {
        None
    } else {
        let parents = chain.drop_last();
        let owner = if parents.len() == 0 {
            usb_word() + dec_spec(bus as nat)
        } else {
            dec_spec(bus as nat) + seq!['-'] + join_chain_spec(parents)
        };
        Some(owner + port_sep() + dec_spec(chain.last() as nat))
    }
}

/// The sysfs-style parent port for a device at `chain`: `usb1-port3` under
/// a root, `1-2.3-port4` under a nested hub.
pub fn synth_parent_port(bus: u8, chain: &[u8]) -> (r: Option<String>)
    ensures
        match r {
            Some(s) => synth_parent_port_spec(bus, chain@) == Some(s@),
            None => synth_parent_port_spec(bus, chain@) is None,
        },
{
    let n = chain.len();
    if n == 0 {
        return None;
    }
    let parents = &chain[0..n - 1];
    assert(parents@ =~= chain@.drop_last());
    let busnum = dec(bus as u64);
    let owner = if parents.len() == 0 {
        let mut usb: Vec<char> = Vec::new();
        usb.push('u');
        usb.push('s');
        usb.push('b');
        assert(usb@ =~= usb_word());
        concat(usb.as_slice(), busnum.as_slice())
    } else {
        let mut a = busnum;
        a.push('-');
        let j = join_chain_chars(parents);
        concat(a.as_slice(), j.as_slice())
    };
    let sep = port_sep_chars();
    let last = dec(chain[n - 1] as u64);
    let x = concat(owner.as_slice(), sep.as_slice());
    let y = concat(x.as_slice(), last.as_slice());
    Some(string_of(y.as_slice()))
}

// ---------------------------------------------------------------------------
// Field parsing
// ---------------------------------------------------------------------------

/// `s` ends with `pat`.
pub open spec fn ends_with_spec(s: Seq<char>, pat: Seq<char>) -> bool {
    s.len() >= pat.len() && s.skip(s.len() - pat.len()) == pat
}

fn ends_with(s: &[char], pat: &[char]) -> (r: bool)
    ensures
        r == ends_with_spec(s@, pat@),
{
    if s.len() < pat.len() {
        return false;
    }
    let tail = copy_range(s, s.len() - pat.len(), s.len());
    assert(tail@ =~= s@.skip(s@.len() - pat@.len()));
    crate::device::chars_eq(tail.as_slice(), pat)
}

/// A hex ID field ("0x05ac"): trimmed, without a leading "0x", as `u16`.
pub open spec fn parse_hex_u16_spec(v: Option<String>) -> Option<nat> {
    match v {
        Some(s) => {
            let t = trim_spec(s@);
            let hex = if starts_with_spec(t, hex_prefix()) {
                t.skip(2)
            } else {
                t
            };
            parse_bounded_spec(hex, 16, 0xffff)
        },
        None => None,
    }
}

/// Reads a hex ID field ("0x05ac").
pub fn parse_hex_u16(v: &Option<String>) -> (r: Option<u16>)
    ensures
        match r {
            Some(x) => parse_hex_u16_spec(*v) == Some(x as nat),
            None => parse_hex_u16_spec(*v) is None,
        },
{
    match v {
        Some(s) => {
            let cs = chars_of(s.as_str());
            let t = trim(cs.as_slice());
            let mut prefix: Vec<char> = Vec::new();
            prefix.push('0');
            prefix.push('x');
            assert(prefix@ =~= hex_prefix());
            let hex = if starts_with(t.as_slice(), prefix.as_slice()) {
                copy_range(t.as_slice(), 2, t.len())
            } else {
                t
            };
            assert(hex@ =~= (if starts_with_spec(trim_spec(s@), hex_prefix()) {
                trim_spec(s@).skip(2)
            } else {
                trim_spec(s@)
            }));
            parse_u16(hex.as_slice(), 16)
        },
        None => None,
    }
}

/// A link speed field ("480 Mb/s", "5 Gb/s") in kbit/s: the number before
/// the unit, any that `str::parse` reads for a real-valued type, as
/// [`scaled_ceil`] rounds it; 0 when absent or unreadable.
pub open spec fn link_speed_spec(v: Option<String>) -> nat {
    match v {
        Some(s) => {
            let t = trim_spec(s@);
            if ends_with_spec(t, "Gb/s"@) {
                match real_text_spec(trim_spec(t.take(t.len() - 4))) {
                    Some(x) => scaled_ceil(x, 6),
                    None => 0,
                }
            } else if ends_with_spec(t, "Mb/s"@) {
                match real_text_spec(trim_spec(t.take(t.len() - 4))) {
                    Some(x) => scaled_ceil(x, 3),
                    None => 0,
                }
            } else {
                0
            }
        },
        None => 0,
    }
}

/// Parse `USBDeviceKeyLinkSpeed` ("480 Mb/s", "5 Gb/s") into kbit/s.
pub fn link_speed(item: &ProfilerItem) -> (r: u64)
    ensures
        r as nat == link_speed_spec(item.link_speed),
{
    let s = match &item.link_speed {
        Some(s) => s,
        None => return 0,
    };
    let cs = chars_of(s.as_str());
    let t = trim(cs.as_slice());
    let gb = chars_of("Gb/s");
    let mb = chars_of("Mb/s");
    let (is_gb, is_mb) = (ends_with(t.as_slice(), gb.as_slice()), ends_with(
        t.as_slice(),
        mb.as_slice(),
    ));
    if !is_gb && !is_mb {
        return 0;
    }
    assert(gb@.len() == 4 && mb@.len() == 4) by {
        reveal_strlit("Gb/s");
        reveal_strlit("Mb/s");
    }
    let num = copy_range(t.as_slice(), 0, t.len() - 4);
    let num = trim(num.as_slice());
    let scale: u64 = if is_gb {
        6
    } else {
        3
    };
    match parse_real_scaled(num.as_slice(), scale) {
        Some(x) => x,
        None => 0,
    }
}

/// Nominal maximum speed (kbit/s) a host controller advertises, from its
/// bus name: the Gen suffixes are checked before the version number, since
/// "USB 3.1 Gen 1" is 5 Gbps, not the 10 Gbps the bare "3.1" suggests.
pub open spec fn bus_name_speed_spec(name: Seq<char>) -> u64 {
    let n = ascii_lowercase_spec(name);
    if contains_spec(n, "usb 4"@) {
        40_000_000
    } else if contains_spec(n, "gen 2x2"@) {
        20_000_000
    } else if contains_spec(n, "gen 1x2"@) {
        10_000_000
    } else if contains_spec(n, "gen 1"@) {
        5_000_000
    } else if contains_spec(n, "3.2"@) || contains_spec(n, "3.1"@) {
        10_000_000
    } else if contains_spec(n, "usb 3"@) {
        5_000_000
    } else if contains_spec(n, "usb 2"@) {
        480_000
    } else if contains_spec(n, "usb 1"@) {
        12_000
    } else {
        0
    }
}

fn has(n: &[char], pat: &str) -> (r: bool)
    ensures
        r == contains_spec(n@, pat@),
{
    let p = chars_of(pat);
    contains(n, p.as_slice())
}

/// Nominal maximum speed (kbit/s) a host controller advertises, from its bus name.
pub fn bus_name_speed(name: &str) -> (r: u64)
    ensures
        r == bus_name_speed_spec(name@),
{
    let cs = chars_of(name);
    let n = to_ascii_lowercase(cs.as_slice());
    let n = n.as_slice();
    if has(n, "usb 4") {
        40_000_000
    } else if has(n, "gen 2x2") {
        20_000_000
    } else if has(n, "gen 1x2") {
        10_000_000
    } else if has(n, "gen 1") {
        5_000_000
    } else if has(n, "3.2") || has(n, "3.1") {
        10_000_000
    } else if has(n, "usb 3") {
        5_000_000
    } else if has(n, "usb 2") {
        480_000
    } else if has(n, "usb 1") {
        12_000
    } else {
        0
    }
}

/// A string field stripped of control characters and surrounding
/// whitespace, `None` when absent or empty after that.
pub open spec fn string_field_spec(v: Option<String>) -> Option<Seq<char>> {
    match v {
        Some(s) => if sanitize_spec(s@).len() == 0 {
            None
        } else {
            Some(sanitize_spec(s@))
        },
        None => None,
    }
}

/// Read a string field, stripped of control characters — these come from the
/// device's own descriptors and would otherwise be able to inject terminal
/// escape sequences into our output.
pub fn string_field(v: &Option<String>) -> (r: Option<String>)
    ensures
        same_opt(r, string_field_spec(*v)),
{
    match v {
        Some(s) => {
            let t = sanitize(s.as_str());
            if chars_of(t.as_str()).len() == 0 {
                None
            } else {
                Some(t)
            }
        },
        None => None,
    }
}


// ---------------------------------------------------------------------------
// Devices
// ---------------------------------------------------------------------------

/// The serial field: sanitized, and dropped when it reads "Not Provided".
pub open spec fn serial_spec(v: Option<String>) -> Option<Seq<char>> {
    match string_field_spec(v) {
        Some(s) => if eq_ignore_ascii_case_spec(s, "Not Provided"@) {
            None
        } else {
            Some(s)
        },
        None => None,
    }
}

/// Whether a hardware type names a removable (user-facing) port.
pub open spec fn is_removable_spec(v: Option<String>) -> bool {
    v matches Some(t) && eq_ignore_ascii_case_spec(t@, "Removable"@)
}

/// "removable" or "fixed" from the hardware type, when there is one.
pub open spec fn removable_spec(v: Option<String>) -> Option<Seq<char>> {
    match v {
        Some(t) => Some(
            if eq_ignore_ascii_case_spec(t@, "Removable"@) {
                "removable"@
            } else {
                "fixed"@
            },
        ),
        None => None,
    }
}

/// The device an entry describes, at bus index `bus`, port chain `chain`,
/// numbered `devnum`: present when both IDs parse. Fields the source does
/// not report stay `None`.
pub open spec fn build_device_spec(
    v: ProfilerItem,
    bus: u8,
    chain: Seq<u8>,
    devnum: u8,
    ids: UsbIds,
    r: Option<UsbDevice>,
) -> bool {
    let vid = parse_hex_u16_spec(v.vendor_id);
    let pid = parse_hex_u16_spec(v.product_id);
    if vid is Some && pid is Some {
        &&& r matches Some(d)
        &&& d.node_key@ == dec_spec(bus as nat) + seq!['-'] + join_chain_spec(chain)
        &&& d.bus == bus
        &&& d.devnum == devnum
        &&& d.devpath@ == join_chain_spec(chain)
        &&& d.vendor_id as nat == vid->0
        &&& d.product_id as nat == pid->0
        &&& same_opt(d.manufacturer, string_field_spec(v.vendor_name))
        &&& same_opt(d.product, string_field_spec(v.name))
        &&& same_opt(d.vendor_name, ids_vendor(ids, d.vendor_id))
        &&& same_opt(d.product_name, ids_product(ids, d.vendor_id, d.product_id))
        &&& same_opt(d.serial, serial_spec(v.serial))
        &&& d.speed as nat == link_speed_spec(v.link_speed)
        &&& d.usb_version is None
        &&& d.device_class is None
        &&& d.max_power is None
        &&& d.num_interfaces is None
        &&& same_opt(d.removable, removable_spec(v.hardware_type))
        &&& d.max_children is None
        &&& d.interfaces is None
        &&& d.pci_slot is None
        &&& same_opt(d.parent_port, synth_parent_port_spec(bus, chain))
        &&& d.port_capability_known == is_removable_spec(v.hardware_type)
    } else {
        r is None
    }
}

fn name_string(n: Option<&str>) -> (r: Option<String>)
    ensures
        match n {
            Some(s) => r matches Some(x) && x@ == s@,
            None => r is None,
        },
{
    match n {
        Some(s) => Some(string_of(chars_of(s).as_slice())),
        None => None,
    }
}

/// Build a device node. Fields absent from `SPUSBHostDataType` (class codes,
/// interfaces, power) stay `None`.
pub fn build_device(v: &ProfilerItem, bus: u8, chain: &[u8], devnum: u8, usb_ids: &UsbIds) -> (r:
    Option<UsbDevice>)
    ensures
        build_device_spec(*v, bus, chain@, devnum, *usb_ids, r),
{
    let vendor_id = match parse_hex_u16(&v.vendor_id) {
        Some(x) => x,
        None => return None,
    };
    let product_id = match parse_hex_u16(&v.product_id) {
        Some(x) => x,
        None => return None,
    };
    let devpath = join_chain_chars(chain);
    let mut key = dec(bus as u64);
    key.push('-');
    assert(key@ =~= dec_spec(bus as nat) + seq!['-']);
    let node_key = concat(key.as_slice(), devpath.as_slice());
    let parent_port = synth_parent_port(bus, chain);
    let speed = link_speed(v);
    // Both names are reported as-is here; suppressing a redundant vendor is
    // the display name's job.
    let product = string_field(&v.name);
    let manufacturer = string_field(&v.vendor_name);
    let serial = match string_field(&v.serial) {
        Some(sn) => {
            let c = chars_of(sn.as_str());
            let np = chars_of("Not Provided");
            if eq_ignore_ascii_case(c.as_slice(), np.as_slice()) {
                None
            } else {
                Some(sn)
            }
        },
        None => None,
    };
    let removable_flag = match &v.hardware_type {
        Some(t) => {
            let c = chars_of(t.as_str());
            let rm = chars_of("Removable");
            eq_ignore_ascii_case(c.as_slice(), rm.as_slice())
        },
        None => false,
    };
    let removable = match &v.hardware_type {
        Some(_) => Some(
            if removable_flag {
                string_of(chars_of("removable").as_slice())
            } else {
                string_of(chars_of("fixed").as_slice())
            },
        ),
        None => None,
    };
    // The source says nothing about how a port is wired: only a removable
    // (user-facing) port is assumed to have the controller's speed.
    let port_capability_known = removable_flag;
    Some(
        UsbDevice {
            node_key: string_of(node_key.as_slice()),
            bus,
            devnum,
            devpath: string_of(devpath.as_slice()),
            vendor_id,
            product_id,
            manufacturer,
            product,
            vendor_name: name_string(usb_ids.vendor_name(vendor_id)),
            product_name: name_string(usb_ids.product_name(vendor_id, product_id)),
            serial,
            speed,
            usb_version: None,
            device_class: None,
            max_power: None,
            num_interfaces: None,
            removable,
            max_children: None,
            interfaces: None,
            pci_slot: None,
            parent_port,
            port_capability_known,
        },
    )
}

/// The synthesised root hub of bus `bus`: node "usb{bus}", devpath "0", the
/// controller's name as product, class Hub, nothing else reported.
pub open spec fn root_hub_spec(d: UsbDevice, bus: u8, name: Seq<char>, speed: nat) -> bool {
    &&& d.node_key@ == usb_word() + dec_spec(bus as nat)
    &&& d.bus == bus
    &&& d.devnum == 0
    &&& d.devpath@ == seq!['0']
    &&& d.vendor_id == 0
    &&& d.product_id == 0
    &&& d.manufacturer is None
    &&& same_opt(d.product, Some(name))
    &&& d.vendor_name is None
    &&& d.product_name is None
    &&& d.serial is None
    &&& d.speed as nat == speed
    &&& d.usb_version is None
    &&& d.device_class == Some(ClassCode { class: 0x09, subclass: 0, protocol: 0 })
    &&& d.max_power is None
    &&& d.num_interfaces is None
    &&& d.removable is None
    &&& d.max_children is None
    &&& d.interfaces is None
    &&& d.pci_slot is None
    &&& d.parent_port is None
    &&& !d.port_capability_known
}

/// The root hub node of a populated bus.
pub fn root_hub(bus: u8, name: String, speed: u64) -> (r: UsbDevice)
    ensures
        root_hub_spec(r, bus, name@, speed as nat),
{
    let mut usb: Vec<char> = Vec::new();
    usb.push('u');
    usb.push('s');
    usb.push('b');
    assert(usb@ =~= usb_word());
    let num = dec(bus as u64);
    let key = concat(usb.as_slice(), num.as_slice());
    let mut zero: Vec<char> = Vec::new();
    zero.push('0');
    assert(zero@ =~= seq!['0']);
    UsbDevice {
        node_key: string_of(key.as_slice()),
        bus,
        devnum: 0,
        devpath: string_of(zero.as_slice()),
        vendor_id: 0,
        product_id: 0,
        manufacturer: None,
        product: Some(name),
        vendor_name: None,
        product_name: None,
        serial: None,
        speed,
        usb_version: None,
        // Synthesised node, but a root hub is a hub by definition
        device_class: Some(ClassCode { class: 0x09, subclass: 0, protocol: 0 }),
        max_power: None,
        num_interfaces: None,
        removable: None,
        max_children: None,
        interfaces: None,
        pci_slot: None,
        parent_port: None,
        // Root hubs have no parent port; the flag is irrelevant for them.
        port_capability_known: false,
    }
}


// ---------------------------------------------------------------------------
// The whole report
// ---------------------------------------------------------------------------

/// Every entry of a list of entries and their nested `_items`, in document
/// order, that carries a vendor ID.
pub open spec fn collect_items(items: Seq<ProfilerItem>) -> Seq<ProfilerItem>
    decreases items,
{
    if items.len() == 0 {
        seq![]
    } else {
        let init = items.subrange(0, items.len() - 1);
        let last = items[items.len() - 1];
        proof {
            assert(decreases_to!(items => last));
        }
        collect_items(init) + collect_item(last)
    }
}

/// An entry, if it carries a vendor ID, followed by the collected entries
/// nested below it.
pub open spec fn collect_item(item: ProfilerItem) -> Seq<ProfilerItem>
    decreases item,
{
    (if item.has_vendor_key {
        seq![item]
    } else {
        seq![]
    }) + match item.items {
        Some(children) => {
            proof {
                assert(decreases_to!(item => item.items));
            }
            collect_items(children@)
        },
        None => seq![],
    }
}


/// The entries a list of references points to.
pub open spec fn derefs(s: Seq<&ProfilerItem>) -> Seq<ProfilerItem> {
    s.map_values(|r: &ProfilerItem| *r)
}

/// Recursively collect every node that looks like a real USB device.
pub fn collect_devices<'a>(items: &'a Vec<ProfilerItem>, out: &mut Vec<&'a ProfilerItem>)
    ensures
        derefs(final(out)@) == derefs(old(out)@) + collect_items(items@),
    decreases items@,
{
    let n = items.len();
    let ghost start = derefs(out@);
    assert(items@.take(0) =~= Seq::<ProfilerItem>::empty());
    assert(start + collect_items(items@.take(0)) =~= start);
    for i in 0..n
        invariant
            n == items@.len(),
            derefs(out@) == start + collect_items(items@.take(i as int)),
    {
        let item = &items[i];
        proof {
            let t = items@.take(i + 1);
            assert(t.subrange(0, t.len() - 1) =~= items@.take(i as int));
            assert(t[t.len() - 1] == *item);
        }
        if item.has_vendor_key {
            out.push(item);
            proof {
                assert(derefs(out@) =~= start + collect_items(items@.take(i as int)) + seq![*item]);
            }
        }
        let ghost mid = derefs(out@);
        match &item.items {
            Some(children) => {
                proof {
                    assert(decreases_to!(items@ => items@[i as int]));
                    assert(decreases_to!(items@[i as int] => items@[i as int].items));
                }
                collect_devices(children, out);
            },
            None => {},
        }
        proof {
            assert(derefs(out@) =~= start + collect_items(items@.take(i as int)) + collect_item(
                *item,
            ));
        }
    }
    proof {
        assert(items@.take(n as int) =~= items@);
    }
}


/// Where an entry sits: its location ID decoded.
pub open spec fn location_of_spec(v: ProfilerItem) -> Option<(u8, Seq<u8>)> {
    match v.location_id {
        Some(s) => decode_location_spec(s@),
        None => None,
    }
}

fn location_of(v: &ProfilerItem) -> (r: Option<(u8, Vec<u8>)>)
    ensures
        match r {
            Some((b, c)) => location_of_spec(*v) == Some((b, c@)),
            None => location_of_spec(*v) is None,
        },
{
    match &v.location_id {
        Some(s) => decode_location(s.as_str()),
        None => None,
    }
}

/// The device entries with their position: (bus byte, port chain, entry)
/// for each entry whose location decodes to a non-empty port chain.
pub open spec fn decoded_spec(nodes: Seq<ProfilerItem>) -> Seq<(u8, Seq<u8>, ProfilerItem)>
    decreases nodes.len(),
{
    if nodes.len() == 0 {
        seq![]
    } else {
        let prev = decoded_spec(nodes.drop_last());
        match location_of_spec(nodes.last()) {
            Some((b, c)) => if c.len() > 0 {
                prev.push((b, c, nodes.last()))
            } else {
                prev
            },
            None => prev,
        }
    }
}

/// The plain values of decoded entries.
pub open spec fn decoded_views(s: Seq<(u8, Vec<u8>, &ProfilerItem)>) -> Seq<(u8, Seq<u8>, ProfilerItem)> {
    s.map_values(|t: (u8, Vec<u8>, &ProfilerItem)| (t.0, t.1@, *t.2))
}

/// A top-level entry is the host controller of bus byte `b`.
pub open spec fn is_controller_byte(items: Seq<ProfilerItem>, b: u8) -> bool {
    exists|i: int|
        0 <= i < items.len() && #[trigger] location_of_spec(items[i]) == Some((b, Seq::<u8>::empty()))
}

/// Some device sits on bus byte `b`.
pub open spec fn carries_devices(dec: Seq<(u8, Seq<u8>, ProfilerItem)>, b: u8) -> bool {
    exists|j: int| 0 <= j < dec.len() && (#[trigger] dec[j]).0 == b
}

/// The buses the report knows: every host controller, populated or not,
/// and every bus a device sits on.
pub open spec fn in_bus_set(items: Seq<ProfilerItem>, dec: Seq<(u8, Seq<u8>, ProfilerItem)>, b: u8) -> bool {
    is_controller_byte(items, b) || carries_devices(dec, b)
}

/// How many known buses have a bus byte below `k`.
pub open spec fn count_below(items: Seq<ProfilerItem>, dec: Seq<(u8, Seq<u8>, ProfilerItem)>, k: int) -> nat
    decreases k,
{
    if k <= 0 {
        0
    } else {
        count_below(items, dec, k - 1) + if in_bus_set(items, dec, (k - 1) as u8) {
            1nat
        } else {
            0nat
        }
    }
}

/// The stable bus number of bus byte `b`: its rank among all known buses,
/// from 1, saturating at 255. Counting every controller, not only the
/// populated ones, keeps a bus's number when a lower bus gets a device.
pub open spec fn bus_index_spec(items: Seq<ProfilerItem>, dec: Seq<(u8, Seq<u8>, ProfilerItem)>, b: u8) -> u8 {
    if count_below(items, dec, b as int) + 1 <= 255 {
        (count_below(items, dec, b as int) + 1) as u8
    } else {
        255
    }
}

/// Two reports that know the same buses number every bus alike.
proof fn lemma_count_below_same_buses(
    items1: Seq<ProfilerItem>,
    dec1: Seq<(u8, Seq<u8>, ProfilerItem)>,
    items2: Seq<ProfilerItem>,
    dec2: Seq<(u8, Seq<u8>, ProfilerItem)>,
    k: int,
)
    requires
        forall|x: u8| in_bus_set(items1, dec1, x) == in_bus_set(items2, dec2, x),
    ensures
        count_below(items1, dec1, k) == count_below(items2, dec2, k),
    decreases k,
{
    if k > 0 {
        lemma_count_below_same_buses(items1, dec1, items2, dec2, k - 1);
        assert(in_bus_set(items1, dec1, (k - 1) as u8) == in_bus_set(items2, dec2, (k - 1) as u8));
    }
}

/// Bus numbers are stable across scans: when a later report lists the same
/// host controllers, keeps a device on every bus that had one, and has its
/// new devices only on buses whose controller is listed (a device plugged
/// into a so-far empty bus), every bus byte keeps its bus number.
pub proof fn lemma_bus_numbers_stable(items1: Seq<ProfilerItem>, items2: Seq<ProfilerItem>)
    requires
        forall|x: u8| is_controller_byte(items1, x) == is_controller_byte(items2, x),
        forall|x: u8|
            carries_devices(decoded_spec(collect_items(items1)), x) ==> carries_devices(
                decoded_spec(collect_items(items2)),
                x,
            ),
        forall|x: u8|
            carries_devices(decoded_spec(collect_items(items2)), x) ==> carries_devices(
                decoded_spec(collect_items(items1)),
                x,
            ) || is_controller_byte(items1, x),
    ensures
        forall|b: u8|
            bus_index_spec(items1, decoded_spec(collect_items(items1)), b) == bus_index_spec(
                items2,
                decoded_spec(collect_items(items2)),
                b,
            ),
{
    let dec1 = decoded_spec(collect_items(items1));
    let dec2 = decoded_spec(collect_items(items2));
    assert forall|x: u8| in_bus_set(items1, dec1, x) == in_bus_set(items2, dec2, x) by {
        if carries_devices(dec1, x) {
            assert(carries_devices(dec2, x));
        }
        if carries_devices(dec2, x) {
            assert(carries_devices(dec1, x) || is_controller_byte(items1, x));
        }
    }
    assert forall|b: u8| bus_index_spec(items1, dec1, b) == bus_index_spec(items2, dec2, b) by {
        lemma_count_below_same_buses(items1, dec1, items2, dec2, b as int);
    }
}

/// The name of the first controller entry of bus byte `b` that has one.
pub open spec fn controller_name_spec(items: Seq<ProfilerItem>, b: u8) -> Option<Seq<char>>
    decreases items.len(),
{
    if items.len() == 0 {
        None
    } else if location_of_spec(items[0]) == Some((b, Seq::<u8>::empty())) && items[0].name is Some {
        Some(items[0].name->0@)
    } else {
        controller_name_spec(items.drop_first(), b)
    }
}

/// The root hub's name: the controller's, else "USB Host Controller".
pub open spec fn root_name_spec(items: Seq<ProfilerItem>, b: u8) -> Seq<char> {
    match controller_name_spec(items, b) {
        Some(n) => n,
        None => "USB Host Controller"@,
    }
}

/// The fastest link speed among the devices on bus byte `b`.
pub open spec fn child_max_spec(dec: Seq<(u8, Seq<u8>, ProfilerItem)>, b: u8) -> nat
    decreases dec.len(),
{
    if dec.len() == 0 {
        0
    } else {
        let prev = child_max_spec(dec.drop_last(), b);
        let here = if dec.last().0 == b {
            link_speed_spec(dec.last().2.link_speed)
        } else {
            0
        };
        if prev >= here {
            prev
        } else {
            here
        }
    }
}

/// A root hub's speed: the bus name's nominal speed, but never below the
/// fastest device enumerated on it.
pub open spec fn root_speed_spec(items: Seq<ProfilerItem>, dec: Seq<(u8, Seq<u8>, ProfilerItem)>, b: u8) -> nat {
    let nominal = bus_name_speed_spec(root_name_spec(items, b)) as nat;
    let fastest = child_max_spec(dec, b);
    if nominal >= fastest {
        nominal
    } else {
        fastest
    }
}

/// The populated bus bytes below `k`, ascending.
pub open spec fn populated_upto(dec: Seq<(u8, Seq<u8>, ProfilerItem)>, k: nat) -> Seq<u8> {
    Seq::new(k, |i: int| i as u8).filter(|b: u8| carries_devices(dec, b))
}

/// How many of the first `k` device entries have bus index `idx`.
pub open spec fn count_same(items: Seq<ProfilerItem>, dec: Seq<(u8, Seq<u8>, ProfilerItem)>, k: int, idx: u8) -> nat
    decreases k,
{
    if k <= 0 {
        0
    } else {
        count_same(items, dec, k - 1, idx) + if bus_index_spec(items, dec, dec[k - 1].0) == idx {
            1nat
        } else {
            0nat
        }
    }
}

/// The device number of the `j`-th device entry: its position among the
/// entries of its bus, from 1, saturating at 255.
pub open spec fn devnum_spec(items: Seq<ProfilerItem>, dec: Seq<(u8, Seq<u8>, ProfilerItem)>, j: int) -> u8 {
    let c = count_same(items, dec, j + 1, bus_index_spec(items, dec, dec[j].0));
    if c <= 255 {
        c as u8
    } else {
        255
    }
}

/// The positions, among the first `k` device entries, of those whose IDs parse.
pub open spec fn built_upto(dec: Seq<(u8, Seq<u8>, ProfilerItem)>, k: int) -> Seq<int>
    decreases k,
{
    if k <= 0 {
        seq![]
    } else {
        let prev = built_upto(dec, k - 1);
        if parse_hex_u16_spec(dec[k - 1].2.vendor_id) is Some && parse_hex_u16_spec(
            dec[k - 1].2.product_id,
        ) is Some {
            prev.push(k - 1)
        } else {
            prev
        }
    }
}

/// The devices of a report: one root hub per populated bus, ascending by
/// bus byte, then every device entry whose IDs parse, in document order.
pub open spec fn scan_devices_spec(items: Seq<ProfilerItem>, ids: UsbIds, devs: Seq<UsbDevice>) -> bool {
    let dec = decoded_spec(collect_items(items));
    let pop = populated_upto(dec, 256);
    let built = built_upto(dec, dec.len() as int);
    &&& devs.len() == pop.len() + built.len()
    &&& forall|k: int|
        0 <= k < pop.len() ==> root_hub_spec(
            #[trigger] devs[k],
            bus_index_spec(items, dec, pop[k]),
            root_name_spec(items, pop[k]),
            root_speed_spec(items, dec, pop[k]),
        )
    &&& forall|m: int|
        0 <= m < built.len() ==> {
            let j = built[m];
            build_device_spec(
                dec[j].2,
                bus_index_spec(items, dec, dec[j].0),
                dec[j].1,
                devnum_spec(items, dec, j),
                ids,
                Some(#[trigger] devs[pop.len() + m]),
            )
        }
}


fn decode_nodes<'a>(nodes: &Vec<&'a ProfilerItem>) -> (r: Vec<(u8, Vec<u8>, &'a ProfilerItem)>)
    ensures
        decoded_views(r@) == decoded_spec(derefs(nodes@)),
{
    let n = nodes.len();
    let mut r: Vec<(u8, Vec<u8>, &'a ProfilerItem)> = Vec::new();
    assert(derefs(nodes@).take(0) =~= Seq::<ProfilerItem>::empty());
    assert(decoded_views(r@) =~= Seq::<(u8, Seq<u8>, ProfilerItem)>::empty());
    for i in 0..n
        invariant
            n == nodes@.len(),
            decoded_views(r@) == decoded_spec(derefs(nodes@).take(i as int)),
    {
        let v: &'a ProfilerItem = nodes[i];
        proof {
            let t = derefs(nodes@).take(i + 1);
            assert(t.drop_last() =~= derefs(nodes@).take(i as int));
            assert(t.last() == *v);
        }
        match location_of(v) {
            Some((b, chain)) => {
                if chain.len() > 0 {
                    let ghost cv = chain@;
                    r.push((b, chain, v));
                    proof {
                        assert(decoded_views(r@) =~= decoded_spec(derefs(nodes@).take(i as int)).push(
                            (b, cv, *v),
                        ));
                    }
                }
            },
            None => {},
        }
    }
    proof {
        assert(derefs(nodes@).take(n as int) =~= derefs(nodes@));
    }
    r
}

fn controller_flags(items: &Vec<ProfilerItem>) -> (r: Vec<bool>)
    ensures
        r@.len() == 256,
        forall|b: int| 0 <= b < 256 ==> r@[b] == is_controller_byte(items@, b as u8),
{
    let mut r: Vec<bool> = Vec::new();
    for b in 0..256usize
        invariant
            r@.len() == b,
            forall|x: int| 0 <= x < b ==> !r@[x],
    {
        r.push(false);
    }
    let n = items.len();
    for i in 0..n
        invariant
            n == items@.len(),
            r@.len() == 256,
            forall|x: int|
                0 <= x < 256 ==> r@[x] == exists|k: int|
                    0 <= k < i && #[trigger] location_of_spec(items@[k]) == Some((x as u8, Seq::<u8>::empty())),
    {
        match location_of(&items[i]) {
            Some((byte, chain)) => {
                if chain.len() == 0 {
                    proof {
                        assert(chain@ =~= Seq::<u8>::empty());
                    }
                    r.set(byte as usize, true);
                }
            },
            None => {},
        }
        proof {
            assert forall|x: int|
                0 <= x < 256 implies r@[x] == exists|k: int|
                    0 <= k < i + 1 && #[trigger] location_of_spec(items@[k]) == Some((x as u8, Seq::<u8>::empty())) by {
                if location_of_spec(items@[i as int]) == Some((x as u8, Seq::<u8>::empty())) {
                    assert(r@[x]);
                }
            }
        }
    }
    r
}

fn carries_flags(dec: &Vec<(u8, Vec<u8>, &ProfilerItem)>) -> (r: Vec<bool>)
    ensures
        r@.len() == 256,
        forall|b: int| 0 <= b < 256 ==> r@[b] == carries_devices(decoded_views(dec@), b as u8),
{
    let mut r: Vec<bool> = Vec::new();
    for b in 0..256usize
        invariant
            r@.len() == b,
            forall|x: int| 0 <= x < b ==> !r@[x],
    {
        r.push(false);
    }
    let n = dec.len();
    for j in 0..n
        invariant
            n == dec@.len(),
            r@.len() == 256,
            forall|x: int|
                0 <= x < 256 ==> r@[x] == exists|k: int| 0 <= k < j && (#[trigger] dec@[k]).0 == x as u8,
    {
        r.set(dec[j].0 as usize, true);
        proof {
            assert forall|x: int|
                0 <= x < 256 implies r@[x] == exists|k: int| 0 <= k < j + 1 && (#[trigger] dec@[k]).0 == x as u8 by {
                if dec@[j as int].0 == x as u8 {
                    assert(r@[x]);
                }
            }
        }
    }
    proof {
        assert forall|x: int| 0 <= x < 256 implies r@[x] == carries_devices(decoded_views(dec@), x as u8) by {
            if r@[x] {
                let k = choose|k: int| 0 <= k < n && (#[trigger] dec@[k]).0 == x as u8;
                assert(decoded_views(dec@)[k].0 == x as u8);
            }
            if carries_devices(decoded_views(dec@), x as u8) {
                let k = choose|k: int| 0 <= k < decoded_views(dec@).len() && (#[trigger] decoded_views(dec@)[k]).0 == x as u8;
                assert(dec@[k].0 == x as u8);
            }
        }
    }
    r
}

fn controller_name(items: &Vec<ProfilerItem>, b: u8) -> (r: String)
    ensures
        r@ == root_name_spec(items@, b),
{
    let n = items.len();
    let mut i: usize = 0;
    assert(items@.skip(0) =~= items@);
    while i < n
        invariant
            n == items@.len(),
            i <= n,
            controller_name_spec(items@, b) == controller_name_spec(items@.skip(i as int), b),
        decreases n - i,
    {
        proof {
            assert(items@.skip(i as int)[0] == items@[i as int]);
            assert(items@.skip(i as int).drop_first() =~= items@.skip(i + 1));
        }
        match location_of(&items[i]) {
            Some((byte, chain)) => {
                if byte == b && chain.len() == 0 {
                    proof {
                        assert(chain@ =~= Seq::<u8>::empty());
                    }
                    match &items[i].name {
                        Some(name) => {
                            return string_of(chars_of(name.as_str()).as_slice());
                        },
                        None => {},
                    }
                }
            },
            None => {},
        }
        i = i + 1;
    }
    string_of(chars_of("USB Host Controller").as_slice())
}

fn child_max(dec: &Vec<(u8, Vec<u8>, &ProfilerItem)>, b: u8) -> (r: u64)
    ensures
        r as nat == child_max_spec(decoded_views(dec@), b),
{
    let n = dec.len();
    let mut best: u64 = 0;
    assert(decoded_views(dec@).take(0) =~= Seq::<(u8, Seq<u8>, ProfilerItem)>::empty());
    for j in 0..n
        invariant
            n == dec@.len(),
            best as nat == child_max_spec(decoded_views(dec@).take(j as int), b),
    {
        proof {
            let t = decoded_views(dec@).take(j + 1);
            assert(t.drop_last() =~= decoded_views(dec@).take(j as int));
            assert(t.last() == decoded_views(dec@)[j as int]);
        }
        if dec[j].0 == b {
            let here = link_speed(dec[j].2);
            if here > best {
                best = here;
            }
        }
    }
    proof {
        assert(decoded_views(dec@).take(n as int) =~= decoded_views(dec@));
    }
    best
}


proof fn lemma_populated_step(dec: Seq<(u8, Seq<u8>, ProfilerItem)>, k: nat)
    requires
        k < 256,
    ensures
        populated_upto(dec, k + 1) == populated_upto(dec, k) + if carries_devices(dec, k as u8) {
            seq![k as u8]
        } else {
            Seq::<u8>::empty()
        },
{
    reveal_with_fuel(Seq::filter, 1);
    let f = |i: int| i as u8;
    assert(Seq::new(k + 1, f).drop_last() =~= Seq::new(k, f));
    assert(Seq::new(k + 1, f).last() == k as u8);
    if !carries_devices(dec, k as u8) {
        assert(populated_upto(dec, k) + Seq::<u8>::empty() =~= populated_upto(dec, k));
    }
}

proof fn lemma_chain_from_nonzero(raw: u32, div: u32)
    ensures
        forall|i: int| 0 <= i < chain_from(raw, div).len() ==> #[trigger] chain_from(raw, div)[i] != 0,
    decreases div,
{
    if div != 0 {
        let n = (raw / div) % 16;
        if n != 0 {
            lemma_chain_from_nonzero(raw, div / 16);
            let c = chain_from(raw, div);
            let rest = chain_from(raw, div / 16);
            assert(c == seq![n as u8] + rest);
            assert forall|i: int| 0 <= i < c.len() implies #[trigger] c[i] != 0 by {
                if i > 0 {
                    assert(c[i] == rest[i - 1]);
                }
            }
        }
    }
}

/// Every decoded device entry has a non-empty port chain of nonzero ports.
proof fn lemma_decoded_chains(nodes: Seq<ProfilerItem>)
    ensures
        forall|j: int|
            0 <= j < decoded_spec(nodes).len() ==> (#[trigger] decoded_spec(nodes)[j]).1.len() > 0
                && forall|k: int| 0 <= k < decoded_spec(nodes)[j].1.len() ==> decoded_spec(nodes)[j].1[k] != 0,
    decreases nodes.len(),
{
    if nodes.len() > 0 {
        lemma_decoded_chains(nodes.drop_last());
        let prev = decoded_spec(nodes.drop_last());
        let all = decoded_spec(nodes);
        if let Some(l) = nodes.last().location_id {
            let t = trim_spec(l@);
            let hex = if starts_with_spec(t, hex_prefix()) {
                t.skip(2)
            } else {
                t
            };
            if let Some(raw) = parse_bounded_spec(hex, 16, 0xffff_ffff) {
                lemma_chain_from_nonzero(raw as u32, 0x10_0000);
            }
        }
        assert forall|j: int| 0 <= j < all.len() implies (#[trigger] all[j]).1.len() > 0 && forall|k: int|
            0 <= k < all[j].1.len() ==> all[j].1[k] != 0 by {
            if j < prev.len() {
                assert(all[j] == prev[j]);
            }
        }
    }
}

/// A port chain of nonzero ports never joins to the root hub's devpath "0".
proof fn lemma_chain_not_root(chain: Seq<u8>)
    requires
        chain.len() > 0,
        forall|k: int| 0 <= k < chain.len() ==> chain[k] != 0,
    ensures
        join_chain_spec(chain) != seq!['0'],
    decreases chain.len(),
{
    if chain.len() == 1 {
        let c = chain[0] as nat;
        lemma_dec_spec_reads_back(c);
        if dec_spec(c) == seq!['0'] {
            let z = seq!['0'];
            assert(z.drop_last() =~= Seq::<char>::empty());
            assert(digits_value(z.drop_last(), 10) == 0);
            assert(z.last() == '0');
            assert(('0' as u32) == 0x30);
            assert(digit_spec('0', 10) == Some(0nat));
            assert(digits_value(z, 10) == 0);
        }
    } else {
        lemma_dec_spec_reads_back(chain.last() as nat);
        assert(join_chain_spec(chain).len() >= 2);
    }
}

/// The entries that become devices are entries of the report whose IDs parse.
proof fn lemma_built_upto(dec: Seq<(u8, Seq<u8>, ProfilerItem)>, k: int)
    requires
        0 <= k <= dec.len(),
    ensures
        forall|m: int|
            0 <= m < built_upto(dec, k).len() ==> 0 <= #[trigger] built_upto(dec, k)[m] < k
                && parse_hex_u16_spec(dec[built_upto(dec, k)[m]].2.vendor_id) is Some
                && parse_hex_u16_spec(dec[built_upto(dec, k)[m]].2.product_id) is Some,
    decreases k,
{
    if k > 0 {
        lemma_built_upto(dec, k - 1);
    }
}

/// A bus's fastest device is at least as fast as each device on it.
proof fn lemma_child_max_bound(dec: Seq<(u8, Seq<u8>, ProfilerItem)>, b: u8, j: int)
    requires
        0 <= j < dec.len(),
        dec[j].0 == b,
    ensures
        child_max_spec(dec, b) >= link_speed_spec(dec[j].2.link_speed),
    decreases dec.len(),
{
    if j < dec.len() - 1 {
        lemma_child_max_bound(dec.drop_last(), b, j);
        assert(dec.drop_last()[j] == dec[j]);
    }
}

/// Known buses below `k2` count those below `k1` and, when `k1 < k2`, `k1`
/// itself if it is known.
proof fn lemma_count_below_grows(
    items: Seq<ProfilerItem>,
    dec: Seq<(u8, Seq<u8>, ProfilerItem)>,
    k1: int,
    k2: int,
)
    requires
        0 <= k1 < k2,
    ensures
        count_below(items, dec, k2) >= count_below(items, dec, k1) + if in_bus_set(items, dec, k1 as u8) {
            1nat
        } else {
            0nat
        },
    decreases k2,
{
    if k2 > k1 + 1 {
        lemma_count_below_grows(items, dec, k1, k2 - 1);
    }
}

/// Two known buses with the same bus number below 255 are one bus.
proof fn lemma_bus_index_injective(
    items: Seq<ProfilerItem>,
    dec: Seq<(u8, Seq<u8>, ProfilerItem)>,
    b1: u8,
    b2: u8,
)
    requires
        in_bus_set(items, dec, b1),
        in_bus_set(items, dec, b2),
        bus_index_spec(items, dec, b1) == bus_index_spec(items, dec, b2),
        bus_index_spec(items, dec, b1) < 255,
    ensures
        b1 == b2,
{
    if b1 < b2 {
        lemma_count_below_grows(items, dec, b1 as int, b2 as int);
    } else if b2 < b1 {
        lemma_count_below_grows(items, dec, b2 as int, b1 as int);
    }
}

/// A root hub is never slower than a device on its bus: its speed is the
/// bus name's nominal speed raised to the fastest device enumerated there.
/// (Bus number 255 is left out: past 254 known buses the numbers saturate
/// and several buses share it.)
pub proof fn lemma_root_hub_covers_its_bus(root: Option<Vec<ProfilerItem>>, ids: UsbIds, r: Result<Scan, String>)
    requires
        parse_scan_spec(root, ids, r),
    ensures
        r matches Ok(scan) ==> forall|i: int, j: int|
            0 <= i < scan.devices@.len() && 0 <= j < scan.devices@.len() && is_root_hub_spec(
                #[trigger] scan.devices@[i],
            ) && (#[trigger] scan.devices@[j]).bus == scan.devices@[i].bus && scan.devices@[i].bus < 255
                ==> scan.devices@[i].speed >= scan.devices@[j].speed,
{
    if let Ok(scan) = r {
        let items = root->0;
        let iv = items@;
        let dec = decoded_spec(collect_items(iv));
        let pop = populated_upto(dec, 256);
        let built = built_upto(dec, dec.len() as int);
        let devs = scan.devices@;
        lemma_decoded_chains(collect_items(iv));
        lemma_built_upto(dec, dec.len() as int);
        let f = |x: int| x as u8;
        let pred = |b: u8| carries_devices(dec, b);
        assert(pop == Seq::new(256, f).filter(pred));
        assert forall|i: int, j: int|
            0 <= i < devs.len() && 0 <= j < devs.len() && is_root_hub_spec(#[trigger] devs[i])
                && (#[trigger] devs[j]).bus == devs[i].bus && devs[i].bus < 255 implies devs[i].speed
            >= devs[j].speed by {
            if i >= pop.len() {
                let m = i - pop.len();
                let jj = built[m];
                assert(devs[pop.len() + m] == devs[i]);
                lemma_chain_not_root(dec[jj].1);
                assert(false);
            }
            Seq::new(256, f).lemma_filter_pred(pred, i);
            assert(carries_devices(dec, pop[i]));
            let hb = pop[i];
            assert(root_hub_spec(devs[i], bus_index_spec(iv, dec, hb), root_name_spec(iv, hb), root_speed_spec(iv, dec, hb)));
            if j < pop.len() {
                Seq::new(256, f).lemma_filter_pred(pred, j);
                assert(carries_devices(dec, pop[j]));
                assert(root_hub_spec(devs[j], bus_index_spec(iv, dec, pop[j]), root_name_spec(iv, pop[j]), root_speed_spec(iv, dec, pop[j])));
                lemma_bus_index_injective(iv, dec, hb, pop[j]);
            } else {
                let m = j - pop.len();
                let jj = built[m];
                assert(devs[pop.len() + m] == devs[j]);
                let b = dec[jj].0;
                assert(carries_devices(dec, b)) by {
                    assert(dec[jj].0 == b);
                }
                lemma_bus_index_injective(iv, dec, hb, b);
                lemma_child_max_bound(dec, b, jj);
            }
        }
    }
}

/// What reading a report gives: an error when the document has no
/// `SPUSBHostDataType` array (an unexpected format must not look like an
/// empty machine), otherwise the devices of [`scan_devices_spec`] and an
/// empty peer map.
pub open spec fn parse_scan_spec(root: Option<Vec<ProfilerItem>>, ids: UsbIds, r: Result<Scan, String>) -> bool {
    match root {
        None => r is Err,
        Some(items) => r matches Ok(scan) && scan.peers.map() == Map::<Seq<char>, Seq<char>>::empty()
            && scan.peers.pairs().len() == 0 && scan_devices_spec(items@, ids, scan.devices@),
    }
}

/// Turn a parsed `SPUSBHostDataType` document into a [`Scan`]. `root` is the
/// document's `SPUSBHostDataType` array, `None` when it has none.
pub fn parse_scan(root: &Option<Vec<ProfilerItem>>, usb_ids: &UsbIds) -> (r: Result<Scan, String>)
    ensures
        parse_scan_spec(*root, *usb_ids, r),
{
    // A missing array means the output is not what we expect (a renamed
    // data type in a future macOS): an error, not "no devices".
    let items = match root {
        Some(v) => v,
        None => {
            let msg = chars_of("unexpected /usr/sbin/system_profiler output: no SPUSBHostDataType array");
            return Err(string_of(msg.as_slice()));
        },
    };
    let ghost iv = items@;
    // Every real device node, with its decoded (bus byte, port chain).
    let mut nodes: Vec<&ProfilerItem> = Vec::new();
    collect_devices(items, &mut nodes);
    assert(derefs(nodes@) =~= collect_items(iv));
    let decoded = decode_nodes(&nodes);
    let ghost dec = decoded_views(decoded@);
    assert(dec == decoded_spec(collect_items(iv)));
    let ctrl = controller_flags(items);
    let carry = carries_flags(&decoded);

    // Stable bus numbers over every bus the system reports.
    let mut index: Vec<u8> = Vec::new();
    let mut count: u64 = 0;
    for b in 0..256usize
        invariant
            ctrl@.len() == 256,
            carry@.len() == 256,
            forall|x: int| 0 <= x < 256 ==> ctrl@[x] == is_controller_byte(iv, x as u8),
            forall|x: int| 0 <= x < 256 ==> carry@[x] == carries_devices(dec, x as u8),
            index@.len() == b,
            count as nat == count_below(iv, dec, b as int),
            count <= b,
            forall|x: int| 0 <= x < b ==> index@[x] == bus_index_spec(iv, dec, x as u8),
    {
        let r: u8 = if count + 1 <= 255 {
            (count + 1) as u8
        } else {
            255
        };
        index.push(r);
        if ctrl[b] || carry[b] {
            count = count + 1;
        }
    }

    // One root hub per populated bus.
    let mut devices: Vec<UsbDevice> = Vec::new();
    assert(populated_upto(dec, 0) =~= Seq::<u8>::empty()) by {
        reveal_with_fuel(Seq::filter, 1);
    }
    for b in 0..256usize
        invariant
            carry@.len() == 256,
            index@.len() == 256,
            forall|x: int| 0 <= x < 256 ==> carry@[x] == carries_devices(dec, x as u8),
            forall|x: int| 0 <= x < 256 ==> index@[x] == bus_index_spec(iv, dec, x as u8),
            iv == items@,
            dec == decoded_views(decoded@),
            devices@.len() == populated_upto(dec, b as nat).len(),
            forall|k: int|
                0 <= k < devices@.len() ==> root_hub_spec(
                    #[trigger] devices@[k],
                    bus_index_spec(iv, dec, populated_upto(dec, b as nat)[k]),
                    root_name_spec(iv, populated_upto(dec, b as nat)[k]),
                    root_speed_spec(iv, dec, populated_upto(dec, b as nat)[k]),
                ),
    {
        proof {
            lemma_populated_step(dec, b as nat);
        }
        if carry[b] {
            let name = controller_name(items, b as u8);
            let nominal = bus_name_speed(name.as_str());
            let fastest = child_max(&decoded, b as u8);
            let speed = if nominal >= fastest {
                nominal
            } else {
                fastest
            };
            let hub = root_hub(index[b], name, speed);
            devices.push(hub);
        }
        proof {
            let p1 = populated_upto(dec, (b + 1) as nat);
            let p0 = populated_upto(dec, b as nat);
            assert forall|k: int| 0 <= k < p0.len() implies p1[k] == p0[k] by {}
        }
    }
    let pcount = devices.len();
    let ghost pop = populated_upto(dec, 256);

    // Devices, numbered sequentially per bus.
    let mut counters: Vec<u8> = Vec::new();
    for x in 0..256usize
        invariant
            counters@.len() == x,
            forall|y: int| 0 <= y < x ==> counters@[y] == 0,
    {
        counters.push(0);
    }
    let n = decoded.len();
    for j in 0..n
        invariant
            n == decoded@.len(),
            n == dec.len(),
            dec == decoded_views(decoded@),
            iv == items@,
            index@.len() == 256,
            forall|x: int| 0 <= x < 256 ==> index@[x] == bus_index_spec(iv, dec, x as u8),
            counters@.len() == 256,
            forall|x: int|
                0 <= x < 256 ==> counters@[x] == (if count_same(iv, dec, j as int, x as u8) <= 255 {
                    count_same(iv, dec, j as int, x as u8)
                } else {
                    255
                }),
            pcount == pop.len(),
            devices@.len() == pop.len() + built_upto(dec, j as int).len(),
            forall|k: int|
                0 <= k < pop.len() ==> root_hub_spec(
                    #[trigger] devices@[k],
                    bus_index_spec(iv, dec, pop[k]),
                    root_name_spec(iv, pop[k]),
                    root_speed_spec(iv, dec, pop[k]),
                ),
            forall|m: int|
                0 <= m < built_upto(dec, j as int).len() ==> {
                    let jj = built_upto(dec, j as int)[m];
                    build_device_spec(
                        dec[jj].2,
                        bus_index_spec(iv, dec, dec[jj].0),
                        dec[jj].1,
                        devnum_spec(iv, dec, jj),
                        *usb_ids,
                        Some(#[trigger] devices@[pop.len() + m]),
                    )
                },
    {
        let entry = &decoded[j];
        let idx = index[entry.0 as usize];
        let c = counters[idx as usize];
        let next: u8 = if c < 255 {
            c + 1
        } else {
            255
        };
        counters.set(idx as usize, next);
        proof {
            assert(dec[j as int] == (entry.0, entry.1@, *entry.2));
            assert forall|x: int|
                0 <= x < 256 implies counters@[x] == (if count_same(iv, dec, j + 1, x as u8) <= 255 {
                    count_same(iv, dec, j + 1, x as u8)
                } else {
                    255
                }) by {
                if x != idx as int {
                    assert(bus_index_spec(iv, dec, dec[j as int].0) != x as u8);
                }
            }
            assert(next == devnum_spec(iv, dec, j as int));
        }
        let ghost before = devices@;
        match build_device(entry.2, idx, entry.1.as_slice(), next, usb_ids) {
            Some(d) => {
                devices.push(d);
                proof {
                    assert(built_upto(dec, j + 1) == built_upto(dec, j as int).push(j as int));
                    assert forall|m: int| 0 <= m < built_upto(dec, j + 1).len() implies {
                        let jj = built_upto(dec, j + 1)[m];
                        build_device_spec(
                            dec[jj].2,
                            bus_index_spec(iv, dec, dec[jj].0),
                            dec[jj].1,
                            devnum_spec(iv, dec, jj),
                            *usb_ids,
                            Some(#[trigger] devices@[pop.len() + m]),
                        )
                    } by {
                        if m < built_upto(dec, j as int).len() {
                            assert(devices@[pop.len() + m] == before[pop.len() + m]);
                        }
                    }
                }
            },
            None => {
                proof {
                    assert(built_upto(dec, j + 1) == built_upto(dec, j as int));
                }
            },
        }
    }
    Ok(Scan { devices, peers: PeerMap::new() })
}

// ---------------------------------------------------------------------------
// The JSON document
// ---------------------------------------------------------------------------

#[verifier::external_type_specification]
#[verifier::external_body]
pub struct ExJsonValue(serde_json::Value);

/// What `serde_json` reads from the bytes of a `system_profiler -json`
/// report: `None` when the bytes are not a JSON document, otherwise the
/// document's `SPUSBHostDataType` array as [`ProfilerItem`]s (`None` when it
/// has no such array).
pub uninterp spec fn profiler_document(json: Seq<u8>) -> Option<Option<Vec<ProfilerItem>>>;

/// One `SPUSBHostDataType` entry of a parsed document as a [`ProfilerItem`]:
/// each string field taken when present and a string, `_items` when it is an
/// array. Part of the conversion that `profiler_items` makes; nothing is
/// stated of it on its own.
#[verifier::external_body]
fn profiler_item_of(v: &serde_json::Value) -> (r: ProfilerItem) {
    let text = |key: &str| v.get(key).and_then(serde_json::Value::as_str).map(str::to_string);
    ProfilerItem {
        name: text("_name"),
        has_vendor_key: v.get("USBDeviceKeyVendorID").is_some(),
        vendor_id: text("USBDeviceKeyVendorID"),
        product_id: text("USBDeviceKeyProductID"),
        vendor_name: text("USBDeviceKeyVendorName"),
        link_speed: text("USBDeviceKeyLinkSpeed"),
        location_id: text("USBKeyLocationID"),
        serial: text("USBDeviceKeySerialNumber"),
        hardware_type: text("USBKeyHardwareType"),
        items: v.get("_items").and_then(serde_json::Value::as_array).map(|a| a.iter().map(profiler_item_of).collect()),
    }
}

/// `serde_json::from_slice` on the report's bytes, then the document's
/// `SPUSBHostDataType` array converted entry by entry. The contract claims
/// only that the outcome is a function of the bytes, named
/// [`profiler_document`]: `Ok` exactly when the bytes parse, with that
/// array (or `None`); the error is the parser's message.
#[verifier::external_body]
fn profiler_items(json: &[u8]) -> (r: Result<Option<Vec<ProfilerItem>>, String>)
    ensures
        match r {
            Ok(items) => profiler_document(json@) == Some(items),
            Err(_) => profiler_document(json@) is None,
        },
{
    match serde_json::from_slice::<serde_json::Value>(json) {
        Ok(root) => Ok(root.get("SPUSBHostDataType").and_then(serde_json::Value::as_array).map(|a| a.iter().map(profiler_item_of).collect())),
        Err(e) => Err(e.to_string()),
    }
}

/// Read the raw output of `system_profiler SPUSBHostDataType -json`: an
/// error when it is not JSON or has no `SPUSBHostDataType` array, otherwise
/// the [`Scan`] that [`parse_scan`] makes of the array.
pub fn scan_profiler_output(json: &[u8], usb_ids: &UsbIds) -> (r: Result<Scan, String>)
    ensures
        match profiler_document(json@) {
            None => r is Err,
            Some(items) => parse_scan_spec(items, *usb_ids, r),
        },
{
    match profiler_items(json) {
        Ok(items) => parse_scan(&items, usb_ids),
        Err(e) => Err(e),
    }
}

} // verus!
