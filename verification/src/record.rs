//! The machine-readable listing: every value a JSON document shows of a
//! device, an interface, a tree node and a controller, computed from the
//! model. Fields the backend cannot supply stay `None`.
use vstd::prelude::*;

use crate::device::{display_name_spec, port_number_spec, unique_drivers_spec, UsbDevice, UsbInterface};
use crate::display::{controller_name, controller_name_spec, triple_spec};
use crate::listing::{ctrl_view, ctrl_views, CtrlView};
use crate::text::{hex_fixed, hex_fixed_spec, string_of};
use crate::topology::{
    lemma_trees_view_index, lemma_trees_view_len, tree_view, PhysicalController, PhysicalDevice,
    TreeView,
};
use crate::usb_class::{
    class_name, class_name_spec, interface_class_name, interface_class_name_spec, speed_short,
    speed_short_spec,
};

verus! {

/// What the listing shows of an interface.
pub struct InterfaceRecord {
    pub number: u8,
    /// Class triple as `cc:ss:pp`
    pub class: String,
    pub class_name: String,
    pub num_endpoints: u8,
    pub driver: Option<String>,
}

/// What the listing shows of a device.
pub struct DeviceRecord {
    pub bus: u8,
    pub devnum: u8,
    pub devpath: String,
    /// `{:04x}` of the vendor ID
    pub vendor_id: String,
    /// `{:04x}` of the product ID
    pub product_id: String,
    pub name: String,
    pub manufacturer: Option<String>,
    pub product: Option<String>,
    pub serial: Option<String>,
    /// Link speed in kbit/s
    pub speed: u64,
    /// Short speed label
    pub speed_label: String,
    pub usb_version: Option<String>,
    /// Device class triple as `cc:ss:pp`
    pub class: Option<String>,
    pub class_name: Option<String>,
    pub max_power: Option<String>,
    pub removable: Option<String>,
    pub max_children: Option<u8>,
    pub num_interfaces: Option<u8>,
    pub interfaces: Option<Vec<InterfaceRecord>>,
    /// Distinct drivers, present wherever the interfaces are
    pub drivers: Option<Vec<String>>,
}

/// What the listing shows of a node of the tree.
pub struct NodeRecord {
    pub device: DeviceRecord,
    pub port: Option<u16>,
    /// Port capability in kbit/s
    pub port_max_speed: u64,
    pub port_max_speed_label: String,
    pub speed_limited: bool,
    pub devices: Vec<NodeRecord>,
}

/// What the listing shows of a controller.
pub struct ControllerRecord {
    pub pci_slot: Option<String>,
    pub buses: Vec<u8>,
    pub name: String,
    /// Top speed in kbit/s
    pub speed: u64,
    pub speed_label: String,
    pub devices: Vec<NodeRecord>,
}

/// Two optional strings with the same text.
pub open spec fn same_text(a: Option<String>, b: Option<String>) -> bool {
    match (a, b) {
        (Some(x), Some(y)) => x@ == y@,
        (None, None) => true,
        _ => false,
    }
}

/// The record of an interface.
pub open spec fn interface_record_ok(r: InterfaceRecord, i: UsbInterface) -> bool {
    &&& r.number == i.number
    &&& r.class@ == triple_spec(i.class, i.subclass, i.protocol)
    &&& r.class_name@ == interface_class_name_spec(i.class, i.subclass, i.protocol)
    &&& r.num_endpoints == i.num_endpoints
    &&& same_text(r.driver, i.driver)
}

/// The record of a device: its own fields, its ID in hex, its display name
/// and speed label, its class triple and name where the class is known, its
/// interfaces and their distinct drivers where the interfaces are known.
pub open spec fn device_record_ok(r: DeviceRecord, d: UsbDevice) -> bool {
    &&& r.bus == d.bus
    &&& r.devnum == d.devnum
    &&& r.devpath@ == d.devpath@
    &&& r.vendor_id@ == hex_fixed_spec(d.vendor_id as nat, 4)
    &&& r.product_id@ == hex_fixed_spec(d.product_id as nat, 4)
    &&& r.name@ == display_name_spec(d)
    &&& same_text(r.manufacturer, d.manufacturer)
    &&& same_text(r.product, d.product)
    &&& same_text(r.serial, d.serial)
    &&& r.speed == d.speed
    &&& r.speed_label@ == speed_short_spec(d.speed)
    &&& same_text(r.usb_version, d.usb_version)
    &&& match d.device_class {
        Some(c) => {
            &&& r.class matches Some(s) && s@ == triple_spec(c.class, c.subclass, c.protocol)
            &&& r.class_name matches Some(s) && s@ == class_name_spec(c.class)
        },
        None => r.class is None && r.class_name is None,
    }
    &&& same_text(r.max_power, d.max_power)
    &&& same_text(r.removable, d.removable)
    &&& r.max_children == d.max_children
    &&& r.num_interfaces == d.num_interfaces
    &&& match d.interfaces {
        Some(v) => {
            &&& r.interfaces matches Some(w) && w@.len() == v@.len() && (forall|i: int|
                0 <= i < v@.len() ==> interface_record_ok(#[trigger] w@[i], v@[i]))
            &&& r.drivers matches Some(ds) && ds@.map_values(|s: String| s@) == unique_drivers_spec(v@)
        },
        None => r.interfaces is None && r.drivers is None,
    }
}

fn owned(s: &str) -> (r: String)
    ensures
        r@ == s@,
{
    s.to_owned()
}

fn copy_text(o: &Option<String>) -> (r: Option<String>)
    ensures
        same_text(r, *o),
{
    match o {
        Some(s) => Some(s.clone()),
        None => None,
    }
}

fn triple_text(class: u8, subclass: u8, protocol: u8) -> (r: String)
    ensures
        r@ == triple_spec(class, subclass, protocol),
{
    let mut v = hex_fixed(class as u64, 2);
    v.push(':');
    let s = hex_fixed(subclass as u64, 2);
    let p = hex_fixed(protocol as u64, 2);
    let ghost v0 = v@;
    for k in 0..s.len()
        invariant
            v@ == v0 + s@.take(k as int),
    {
        v.push(s[k]);
        assert(s@.take(k + 1) =~= s@.take(k as int).push(s@[k as int]));
    }
    assert(s@.take(s@.len() as int) =~= s@);
    v.push(':');
    let ghost v1 = v@;
    for k in 0..p.len()
        invariant
            v@ == v1 + p@.take(k as int),
    {
        v.push(p[k]);
        assert(p@.take(k + 1) =~= p@.take(k as int).push(p@[k as int]));
    }
    assert(p@.take(p@.len() as int) =~= p@);
    assert(v@ =~= triple_spec(class, subclass, protocol));
    string_of(v.as_slice())
}

/// The record of an interface.
pub fn interface_record(i: &UsbInterface) -> (r: InterfaceRecord)
    ensures
        interface_record_ok(r, *i),
{
    InterfaceRecord {
        number: i.number,
        class: triple_text(i.class, i.subclass, i.protocol),
        class_name: owned(interface_class_name(i.class, i.subclass, i.protocol)),
        num_endpoints: i.num_endpoints,
        driver: copy_text(&i.driver),
    }
}

fn hex4_text(v: u16) -> (r: String)
    ensures
        r@ == hex_fixed_spec(v as nat, 4),
{
    let c = hex_fixed(v as u64, 4);
    string_of(c.as_slice())
}

/// The record of a device.
pub fn device_record(dev: &UsbDevice) -> (r: DeviceRecord)
    ensures
        device_record_ok(r, *dev),
{
    let (class, cname) = match &dev.device_class {
        Some(c) => (Some(triple_text(c.class, c.subclass, c.protocol)), Some(owned(class_name(c.class)))),
        None => (None, None),
    };
    let (interfaces, drivers) = match &dev.interfaces {
        Some(v) => {
            let mut w: Vec<InterfaceRecord> = Vec::new();
            for k in 0..v.len()
                invariant
                    w@.len() == k,
                    forall|j: int| 0 <= j < k ==> interface_record_ok(#[trigger] w@[j], v@[j]),
            {
                w.push(interface_record(&v[k]));
            }
            (Some(w), Some(dev.unique_drivers()))
        },
        None => (None, None),
    };
    DeviceRecord {
        bus: dev.bus,
        devnum: dev.devnum,
        devpath: dev.devpath.clone(),
        vendor_id: hex4_text(dev.vendor_id),
        product_id: hex4_text(dev.product_id),
        name: dev.display_name(),
        manufacturer: copy_text(&dev.manufacturer),
        product: copy_text(&dev.product),
        serial: copy_text(&dev.serial),
        speed: dev.speed,
        speed_label: owned(speed_short(dev.speed)),
        usb_version: copy_text(&dev.usb_version),
        class,
        class_name: cname,
        max_power: copy_text(&dev.max_power),
        removable: copy_text(&dev.removable),
        max_children: dev.max_children,
        num_interfaces: dev.num_interfaces,
        interfaces,
        drivers,
    }
}


/// The record of a tree node: its device's record, its port, the port's
/// capability and the throttling flag, and the records of the nodes
/// below it.
pub open spec fn node_record_ok(r: NodeRecord, t: TreeView) -> bool
    decreases t,
{
    &&& device_record_ok(r.device, t.device)
    &&& r.port == port_number_spec(t.device)
    &&& r.port_max_speed as nat == t.port_max_speed
    &&& r.port_max_speed_label@ == speed_short_spec(t.port_max_speed as u64)
    &&& r.speed_limited == t.speed_limited
    &&& r.devices@.len() == t.children.len()
    &&& forall|i: int| 0 <= i < t.children.len() ==> #[trigger] node_record_ok(r.devices@[i], t.children[i])
}

/// The record of a tree node and everything below it.
pub fn node_record(pdev: &PhysicalDevice) -> (r: NodeRecord)
    ensures
        node_record_ok(r, tree_view(*pdev)),
    decreases *pdev,
{
    let ghost tv = tree_view(*pdev);
    let mut devices: Vec<NodeRecord> = Vec::new();
    proof {
        lemma_trees_view_len(pdev.children@);
    }
    for k in 0..pdev.children.len()
        invariant
            tv == tree_view(*pdev),
            tv.children.len() == pdev.children@.len(),
            devices@.len() == k,
            forall|j: int| 0 <= j < k ==> node_record_ok(#[trigger] devices@[j], tv.children[j]),
    {
        proof {
            lemma_trees_view_index(pdev.children@, k as int);
            assert(decreases_to!(*pdev => pdev.children));
            assert(decreases_to!(pdev.children => pdev.children@));
            assert(decreases_to!(pdev.children@ => pdev.children@[k as int]));
        }
        let child = node_record(&pdev.children[k]);
        devices.push(child);
    }
    let r = NodeRecord {
        device: device_record(pdev.device),
        port: pdev.device.port_number(),
        port_max_speed: pdev.port_max_speed,
        port_max_speed_label: owned(speed_short(pdev.port_max_speed)),
        speed_limited: pdev.speed_limited,
        devices,
    };
    r
}

/// The record of a controller: its PCI slot, its buses fastest first, its
/// header name, its top speed and the records of its tree.
pub open spec fn controller_record_ok(r: ControllerRecord, c: CtrlView) -> bool {
    &&& match c.pci_slot {
        Some(s) => r.pci_slot matches Some(x) && x@ == s,
        None => r.pci_slot is None,
    }
    &&& r.buses@ == c.roots.map_values(|d: UsbDevice| d.bus)
    &&& c.roots.len() > 0 ==> r.name@ == controller_name_spec(c.roots[0])
    &&& r.speed == c.max_speed
    &&& r.speed_label@ == speed_short_spec(c.max_speed)
    &&& r.devices@.len() == c.children.len()
    &&& forall|i: int| 0 <= i < c.children.len() ==> #[trigger] node_record_ok(r.devices@[i], c.children[i])
}

/// The record of a controller; it has a root hub.
pub fn controller_record(c: &PhysicalController) -> (r: ControllerRecord)
    requires
        c.root_hubs@.len() > 0,
    ensures
        controller_record_ok(r, ctrl_view(*c)),
{
    let ghost cv = ctrl_view(*c);
    let mut buses: Vec<u8> = Vec::new();
    for k in 0..c.root_hubs.len()
        invariant
            cv == ctrl_view(*c),
            buses@.len() == k,
            forall|j: int| 0 <= j < k ==> buses@[j] == (#[trigger] cv.roots[j]).bus,
    {
        buses.push(c.root_hubs[k].bus);
    }
    assert(buses@ =~= cv.roots.map_values(|d: UsbDevice| d.bus));
    let mut devices: Vec<NodeRecord> = Vec::new();
    proof {
        lemma_trees_view_len(c.children@);
    }
    for k in 0..c.children.len()
        invariant
            cv == ctrl_view(*c),
            cv.children.len() == c.children@.len(),
            devices@.len() == k,
            forall|j: int| 0 <= j < k ==> node_record_ok(#[trigger] devices@[j], cv.children[j]),
    {
        proof {
            lemma_trees_view_index(c.children@, k as int);
        }
        devices.push(node_record(&c.children[k]));
    }
    let pci_slot = copy_text(&c.pci_slot);
    ControllerRecord {
        pci_slot,
        buses,
        name: controller_name(c.root_hubs[0]),
        speed: c.max_speed,
        speed_label: owned(speed_short(c.max_speed)),
        devices,
    }
}

/// The records of the devices of a flat list, in order.
pub fn device_records(devices: &[UsbDevice]) -> (r: Vec<DeviceRecord>)
    ensures
        r@.len() == devices@.len(),
        forall|i: int| 0 <= i < devices@.len() ==> #[trigger] device_record_ok(r@[i], devices@[i]),
{
    let mut out: Vec<DeviceRecord> = Vec::new();
    for k in 0..devices.len()
        invariant
            out@.len() == k,
            forall|j: int| 0 <= j < k ==> #[trigger] device_record_ok(out@[j], devices@[j]),
    {
        out.push(device_record(&devices[k]));
    }
    out
}

/// The records of the controllers of a tree listing, in order; each has a
/// root hub.
pub fn controller_records(controllers: &[PhysicalController]) -> (r: Vec<ControllerRecord>)
    requires
        forall|i: int| 0 <= i < controllers@.len() ==> (#[trigger] controllers@[i]).root_hubs@.len() > 0,
    ensures
        r@.len() == controllers@.len(),
        forall|i: int| 0 <= i < controllers@.len() ==> #[trigger] controller_record_ok(r@[i], ctrl_views(controllers@)[i]),
{
    let mut out: Vec<ControllerRecord> = Vec::new();
    for k in 0..controllers.len()
        invariant
            out@.len() == k,
            forall|i: int| 0 <= i < controllers@.len() ==> (#[trigger] controllers@[i]).root_hubs@.len() > 0,
            forall|j: int| 0 <= j < k ==> #[trigger] controller_record_ok(out@[j], ctrl_views(controllers@)[j]),
    {
        out.push(controller_record(&controllers[k]));
    }
    out
}

} // verus!
