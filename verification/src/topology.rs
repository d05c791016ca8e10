//! The physical topology: companion buses merged into controllers, hub
//! instances merged into physical devices.
use vstd::prelude::*;

use crate::device::{
    chars_eq, port_number_spec, port_owner_chars, port_owner_spec, PeerMap, UsbDevice,
};
use crate::sort::{lemma_sorted_elements, sort_by_key, sorted_by_key};
use crate::text::{chars_of, copy_range};
use crate::union_find::UnionFind;
use crate::query::{device_filter_spec, DeviceFilter};

verus! {

/// A node of the physical tree as the contracts describe it: the index of
/// the device shown, the port's capability, the throttling flag and the
/// nodes below.
pub struct NodeSpec {
    pub dev: usize,
    pub port_max_speed: nat,
    pub speed_limited: bool,
    pub children: Seq<NodeSpec>,
}

/// A physical USB device, merged across companion buses.
pub struct PhysicalDevice<'a> {
    /// The device (the fastest instance if it enumerates on multiple buses)
    pub device: &'a UsbDevice,
    /// Maximum speed the physical port supports, in kbit/s
    pub port_max_speed: u64,
    /// True if the device runs at USB 2.0 speed on a port wired for USB 3.x
    pub speed_limited: bool,
    pub children: Vec<PhysicalDevice<'a>>,
}

/// An exec tree node shows what a spec node describes.
pub open spec fn node_matches(devs: Seq<UsbDevice>, n: PhysicalDevice, s: NodeSpec) -> bool
    decreases s,
{
    &&& 0 <= s.dev < devs.len()
    &&& *n.device == devs[s.dev as int]
    &&& n.port_max_speed as nat == s.port_max_speed
    &&& n.speed_limited == s.speed_limited
    &&& n.children@.len() == s.children.len()
    &&& forall|i: int| 0 <= i < s.children.len() ==> #[trigger] node_matches(devs, n.children@[i], s.children[i])
}


// ---------------------------------------------------------------------------
// Which devices hang off which hub instances
// ---------------------------------------------------------------------------

/// The node key of device `i`.
pub open spec fn key_of(devs: Seq<UsbDevice>, i: usize) -> Seq<char> {
    devs[i as int].node_key@
}

/// The hub instance a device's parent port belongs to.
pub open spec fn owner_of_dev(d: UsbDevice) -> Option<Seq<char>> {
    match d.parent_port {
        Some(p) => port_owner_spec(p@),
        None => None,
    }
}

/// The devices among the first `k` whose parent port belongs to `name`.
pub open spec fn attached_upto(devs: Seq<UsbDevice>, name: Seq<char>, k: int) -> Seq<usize>
    decreases k,
{
    if k <= 0 {
        seq![]
    } else {
        attached_upto(devs, name, k - 1) + if owner_of_dev(devs[k - 1]) == Some(name) {
            seq![(k - 1) as usize]
        } else {
            Seq::<usize>::empty()
        }
    }
}

/// The devices attached to hub instance `name`, in device order.
pub open spec fn attached(devs: Seq<UsbDevice>, name: Seq<char>) -> Seq<usize> {
    attached_upto(devs, name, devs.len() as int)
}

/// The devices attached to any of the instances, instance by instance.
pub open spec fn attached_all(devs: Seq<UsbDevice>, inst: Seq<usize>) -> Seq<usize>
    decreases inst.len(),
{
    if inst.len() == 0 {
        seq![]
    } else {
        attached_all(devs, inst.drop_last()) + attached(devs, key_of(devs, inst.last()))
    }
}

/// Every index in `s` is below `n`.
pub open spec fn all_below(s: Seq<usize>, n: nat) -> bool {
    forall|i: int| 0 <= i < s.len() ==> (#[trigger] s[i]) < n
}

proof fn lemma_attached_upto_below(devs: Seq<UsbDevice>, name: Seq<char>, k: int)
    requires
        k <= devs.len(),
    ensures
        all_below(attached_upto(devs, name, k), devs.len()),
    decreases k,
{
    if k > 0 {
        lemma_attached_upto_below(devs, name, k - 1);
    }
}

proof fn lemma_attached_all_below(devs: Seq<UsbDevice>, inst: Seq<usize>)
    ensures
        all_below(attached_all(devs, inst), devs.len()),
    decreases inst.len(),
{
    if inst.len() > 0 {
        lemma_attached_all_below(devs, inst.drop_last());
        lemma_attached_upto_below(devs, key_of(devs, inst.last()), devs.len() as int);
    }
}

fn dev_owner(d: &UsbDevice) -> (r: Option<Vec<char>>)
    ensures
        match r {
            Some(o) => owner_of_dev(*d) == Some(o@),
            None => owner_of_dev(*d) is None,
        },
{
    match &d.parent_port {
        Some(p) => {
            let pc = chars_of(p.as_str());
            port_owner_chars(pc.as_slice())
        },
        None => None,
    }
}

/// The devices attached to hub instance `name`.
fn attached_to(devs: &[UsbDevice], name: &[char]) -> (r: Vec<usize>)
    ensures
        r@ == attached(devs@, name@),
{
    let n = devs.len();
    let mut r: Vec<usize> = Vec::new();
    for i in 0..n
        invariant
            n == devs@.len(),
            r@ == attached_upto(devs@, name@, i as int),
    {
        match dev_owner(&devs[i]) {
            Some(o) => {
                if chars_eq(o.as_slice(), name) {
                    r.push(i);
                    assert(r@ =~= attached_upto(devs@, name@, i + 1));
                } else {
                    assert(attached_upto(devs@, name@, i + 1) =~= attached_upto(devs@, name@, i as int));
                }
            },
            None => {
                assert(attached_upto(devs@, name@, i + 1) =~= attached_upto(devs@, name@, i as int));
            },
        }
    }
    r
}

/// The devices attached to any of the instances.
fn attached_to_all(devs: &[UsbDevice], inst: &Vec<usize>) -> (r: Vec<usize>)
    requires
        all_below(inst@, devs@.len()),
    ensures
        r@ == attached_all(devs@, inst@),
{
    let n = inst.len();
    let mut r: Vec<usize> = Vec::new();
    assert(inst@.take(0) =~= Seq::<usize>::empty());
    for k in 0..n
        invariant
            n == inst@.len(),
            all_below(inst@, devs@.len()),
            r@ == attached_all(devs@, inst@.take(k as int)),
    {
        proof {
            assert(inst@.take(k + 1).drop_last() =~= inst@.take(k as int));
            assert(inst@.take(k + 1).last() == inst@[k as int]);
        }
        let name = chars_of(devs[inst[k]].node_key.as_str());
        let more = attached_to(devs, name.as_slice());
        let mut j: usize = 0;
        let ghost base = r@;
        while j < more.len()
            invariant
                j <= more@.len(),
                r@ == base + more@.take(j as int),
            decreases more@.len() - j,
        {
            r.push(more[j]);
            assert(more@.take(j + 1) =~= more@.take(j as int).push(more@[j as int]));
            assert(r@ =~= base + more@.take(j + 1));
            j = j + 1;
        }
        assert(more@.take(j as int) =~= more@);
    }
    assert(inst@.take(n as int) =~= inst@);
    r
}

// ---------------------------------------------------------------------------
// Ports and their capability within one physical parent
// ---------------------------------------------------------------------------

/// Some instance is called `o`.
pub open spec fn names_has(devs: Seq<UsbDevice>, inst: Seq<usize>, o: Seq<char>) -> bool {
    exists|k: int| 0 <= k < inst.len() && key_of(devs, #[trigger] inst[k]) == o
}

/// The speed of the last instance called `o`; 0 when there is none.
pub open spec fn inst_speed(devs: Seq<UsbDevice>, inst: Seq<usize>, o: Seq<char>) -> nat
    decreases inst.len(),
{
    if inst.len() == 0 {
        0
    } else if key_of(devs, inst.last()) == o {
        devs[inst.last() as int].speed as nat
    } else {
        inst_speed(devs, inst.drop_last(), o)
    }
}

/// The speed of the instance a port belongs to; 0 outside this parent.
pub open spec fn side_speed(devs: Seq<UsbDevice>, inst: Seq<usize>, p: Seq<char>) -> nat {
    match port_owner_spec(p) {
        Some(o) => inst_speed(devs, inst, o),
        None => 0,
    }
}

/// A port's peer, when the peer belongs to one of this parent's instances.
pub open spec fn group_peer(
    devs: Seq<UsbDevice>,
    pm: Map<Seq<char>, Seq<char>>,
    inst: Seq<usize>,
    port: Seq<char>,
) -> Option<Seq<char>> {
    if pm.contains_key(port) {
        match port_owner_spec(pm[port]) {
            Some(o) => if names_has(devs, inst, o) {
                Some(pm[port])
            } else {
                None
            },
            None => None,
        }
    } else {
        None
    }
}

/// `a` is at most `b` in lexicographic order.
pub open spec fn lex_le(a: Seq<char>, b: Seq<char>) -> bool
    decreases a.len(),
{
    if a.len() == 0 {
        true
    } else if b.len() == 0 {
        false
    } else if a[0] != b[0] {
        a[0] < b[0]
    } else {
        lex_le(a.drop_first(), b.drop_first())
    }
}

fn lex_le_exec(a: &[char], b: &[char]) -> (r: bool)
    ensures
        r == lex_le(a@, b@),
{
    let mut i: usize = 0;
    assert(a@.skip(0) =~= a@);
    assert(b@.skip(0) =~= b@);
    loop
        invariant
            i <= a@.len(),
            i <= b@.len(),
            lex_le(a@, b@) == lex_le(a@.skip(i as int), b@.skip(i as int)),
        decreases a@.len() - i,
    {
        if i == a.len() {
            return true;
        }
        if i == b.len() {
            return false;
        }
        proof {
            assert(a@.skip(i as int)[0] == a@[i as int]);
            assert(b@.skip(i as int)[0] == b@[i as int]);
            assert(a@.skip(i as int).drop_first() =~= a@.skip(i + 1));
            assert(b@.skip(i as int).drop_first() =~= b@.skip(i + 1));
        }
        if a[i] != b[i] {
            return a[i] < b[i];
        }
        i = i + 1;
    }
}

/// The key of a port's physical connector: the lexicographically smaller
/// of the port and its in-parent peer.
pub open spec fn slot_key(
    devs: Seq<UsbDevice>,
    pm: Map<Seq<char>, Seq<char>>,
    inst: Seq<usize>,
    port: Seq<char>,
) -> Seq<char> {
    match group_peer(devs, pm, inst, port) {
        Some(p) => if lex_le(p, port) {
            p
        } else {
            port
        },
        None => port,
    }
}

/// A port's capability: the fastest parent side it is wired to.
pub open spec fn port_speed(
    devs: Seq<UsbDevice>,
    pm: Map<Seq<char>, Seq<char>>,
    inst: Seq<usize>,
    port: Seq<char>,
) -> nat {
    let a = match group_peer(devs, pm, inst, port) {
        Some(p) => side_speed(devs, inst, p),
        None => 0,
    };
    let b = side_speed(devs, inst, port);
    if a >= b {
        a
    } else {
        b
    }
}

fn names_has_exec(devs: &[UsbDevice], inst: &Vec<usize>, o: &[char]) -> (r: bool)
    requires
        all_below(inst@, devs@.len()),
    ensures
        r == names_has(devs@, inst@, o@),
{
    let n = inst.len();
    for k in 0..n
        invariant
            n == inst@.len(),
            all_below(inst@, devs@.len()),
            forall|j: int| 0 <= j < k ==> key_of(devs@, #[trigger] inst@[j]) != o@,
    {
        let kc = chars_of(devs[inst[k]].node_key.as_str());
        if chars_eq(kc.as_slice(), o) {
            return true;
        }
    }
    false
}

fn inst_speed_exec(devs: &[UsbDevice], inst: &Vec<usize>, o: &[char]) -> (r: u64)
    requires
        all_below(inst@, devs@.len()),
    ensures
        r as nat == inst_speed(devs@, inst@, o@),
{
    let mut k = inst.len();
    assert(inst@.take(k as int) =~= inst@);
    while k > 0
        invariant
            k <= inst@.len(),
            all_below(inst@, devs@.len()),
            inst_speed(devs@, inst@, o@) == inst_speed(devs@, inst@.take(k as int), o@),
        decreases k,
    {
        proof {
            assert(inst@.take(k as int).drop_last() =~= inst@.take(k - 1));
            assert(inst@.take(k as int).last() == inst@[k - 1]);
        }
        let kc = chars_of(devs[inst[k - 1]].node_key.as_str());
        if chars_eq(kc.as_slice(), o) {
            return devs[inst[k - 1]].speed;
        }
        k = k - 1;
    }
    0
}

fn side_speed_exec(devs: &[UsbDevice], inst: &Vec<usize>, p: &[char]) -> (r: u64)
    requires
        all_below(inst@, devs@.len()),
    ensures
        r as nat == side_speed(devs@, inst@, p@),
{
    match port_owner_chars(p) {
        Some(o) => inst_speed_exec(devs, inst, o.as_slice()),
        None => 0,
    }
}

fn group_peer_exec(devs: &[UsbDevice], peers: &PeerMap, inst: &Vec<usize>, port: &[char]) -> (r:
    Option<Vec<char>>)
    requires
        all_below(inst@, devs@.len()),
    ensures
        match r {
            Some(p) => group_peer(devs@, peers.map(), inst@, port@) == Some(p@),
            None => group_peer(devs@, peers.map(), inst@, port@) is None,
        },
{
    match peers.get(port) {
        Some(peer) => {
            let pc = chars_of(peer.as_str());
            match port_owner_chars(pc.as_slice()) {
                Some(o) => if names_has_exec(devs, inst, o.as_slice()) {
                    Some(pc)
                } else {
                    None
                },
                None => None,
            }
        },
        None => None,
    }
}


// ---------------------------------------------------------------------------
// Physical ports ("slots") of one parent
// ---------------------------------------------------------------------------

/// A physical port: its key, the devices on it, its capability (kbit/s).
pub type SlotSpec = (Seq<char>, Seq<usize>, nat);

/// Position of the last slot with the given key, -1 when there is none.
pub open spec fn find_slot(slots: Seq<SlotSpec>, key: Seq<char>) -> int
    decreases slots.len(),
{
    if slots.len() == 0 {
        -1
    } else if slots.last().0 == key {
        slots.len() - 1
    } else {
        find_slot(slots.drop_last(), key)
    }
}

/// The slots the first `j` attached devices fill: devices on peered ports
/// share the slot of their connector, and a slot's capability is the
/// fastest of its ports.
pub open spec fn slots_upto(
    devs: Seq<UsbDevice>,
    pm: Map<Seq<char>, Seq<char>>,
    inst: Seq<usize>,
    att: Seq<usize>,
    j: int,
) -> Seq<SlotSpec>
    decreases j,
{
    if j <= 0 {
        seq![]
    } else {
        let prev = slots_upto(devs, pm, inst, att, j - 1);
        let d = att[j - 1];
        match devs[d as int].parent_port {
            Some(p) => {
                let key = slot_key(devs, pm, inst, p@);
                let sp = port_speed(devs, pm, inst, p@);
                let at = find_slot(prev, key);
                if at >= 0 {
                    let old_slot = prev[at];
                    prev.update(
                        at,
                        (key, old_slot.1.push(d), if old_slot.2 >= sp {
                            old_slot.2
                        } else {
                            sp
                        }),
                    )
                } else {
                    prev.push((key, seq![d], sp))
                }
            },
            None => prev,
        }
    }
}

/// The plain values of slots.
pub open spec fn slot_views(s: Seq<(Vec<char>, Vec<usize>, u64)>) -> Seq<SlotSpec> {
    s.map_values(|t: (Vec<char>, Vec<usize>, u64)| (t.0@, t.1@, t.2 as nat))
}

/// Every slot holds at least one device, all of them below `n`.
pub open spec fn slots_ok(slots: Seq<SlotSpec>, n: nat) -> bool {
    forall|k: int| 0 <= k < slots.len() ==> (#[trigger] slots[k]).1.len() > 0 && all_below(slots[k].1, n)
}

proof fn lemma_find_slot(slots: Seq<SlotSpec>, key: Seq<char>)
    ensures
        -1 <= find_slot(slots, key) < slots.len(),
        find_slot(slots, key) >= 0 ==> slots[find_slot(slots, key)].0 == key,
    decreases slots.len(),
{
    if slots.len() > 0 && slots.last().0 != key {
        lemma_find_slot(slots.drop_last(), key);
    }
}

fn find_slot_exec(slots: &Vec<(Vec<char>, Vec<usize>, u64)>, key: &[char]) -> (r: Option<usize>)
    ensures
        match r {
            Some(p) => find_slot(slot_views(slots@), key@) == p as int,
            None => find_slot(slot_views(slots@), key@) == -1,
        },
{
    let mut k = slots.len();
    assert(slot_views(slots@).take(k as int) =~= slot_views(slots@));
    while k > 0
        invariant
            k <= slots@.len(),
            find_slot(slot_views(slots@), key@) == find_slot(slot_views(slots@).take(k as int), key@),
        decreases k,
    {
        proof {
            let t = slot_views(slots@).take(k as int);
            assert(t.drop_last() =~= slot_views(slots@).take(k - 1));
            assert(t.last() == slot_views(slots@)[k - 1]);
        }
        if chars_eq(slots[k - 1].0.as_slice(), key) {
            return Some(k - 1);
        }
        k = k - 1;
    }
    None
}

/// Groups the attached devices into physical ports.
fn build_slots(devs: &[UsbDevice], peers: &PeerMap, inst: &Vec<usize>, att: &Vec<usize>) -> (r: Vec<
    (Vec<char>, Vec<usize>, u64),
>)
    requires
        all_below(inst@, devs@.len()),
        all_below(att@, devs@.len()),
    ensures
        slot_views(r@) == slots_upto(devs@, peers.map(), inst@, att@, att@.len() as int),
        slots_ok(slot_views(r@), devs@.len()),
{
    let ghost pm = peers.map();
    let n = att.len();
    let mut slots: Vec<(Vec<char>, Vec<usize>, u64)> = Vec::new();
    assert(slot_views(slots@) =~= Seq::<SlotSpec>::empty());
    for j in 0..n
        invariant
            n == att@.len(),
            pm == peers.map(),
            all_below(inst@, devs@.len()),
            all_below(att@, devs@.len()),
            slot_views(slots@) == slots_upto(devs@, pm, inst@, att@, j as int),
            slots_ok(slot_views(slots@), devs@.len()),
    {
        let d = att[j];
        let ghost prev = slot_views(slots@);
        proof {
            assert(d < devs@.len());
        }
        match &devs[d].parent_port {
            Some(p) => {
                let pc = chars_of(p.as_str());
                let peer = group_peer_exec(devs, peers, inst, pc.as_slice());
                let key: Vec<char> = match &peer {
                    Some(q) => if lex_le_exec(q.as_slice(), pc.as_slice()) {
                        copy_range(q.as_slice(), 0, q.len())
                    } else {
                        copy_range(pc.as_slice(), 0, pc.len())
                    },
                    None => copy_range(pc.as_slice(), 0, pc.len()),
                };
                let a: u64 = match &peer {
                    Some(q) => side_speed_exec(devs, inst, q.as_slice()),
                    None => 0,
                };
                let b = side_speed_exec(devs, inst, pc.as_slice());
                let sp = if a >= b {
                    a
                } else {
                    b
                };
                proof {
                    assert(key@ =~= slot_key(devs@, pm, inst@, p@));
                    assert(sp as nat == port_speed(devs@, pm, inst@, p@));
                    lemma_find_slot(prev, key@);
                }
                match find_slot_exec(&slots, key.as_slice()) {
                    Some(at) => {
                        let (k0, mut ds, m) = slots.remove(at);
                        ds.push(d);
                        let nm = if m >= sp {
                            m
                        } else {
                            sp
                        };
                        slots.insert(at, (k0, ds, nm));
                        proof {
                            assert(slot_views(slots@) =~= prev.update(
                                at as int,
                                (key@, prev[at as int].1.push(d), nm as nat),
                            ));
                        }
                    },
                    None => {
                        let mut ds: Vec<usize> = Vec::new();
                        ds.push(d);
                        slots.push((key, ds, sp));
                        proof {
                            assert(slot_views(slots@) =~= prev.push((key@, seq![d], sp as nat)));
                        }
                    },
                }
                proof {
                    assert forall|k: int| 0 <= k < slot_views(slots@).len() implies (#[trigger] slot_views(slots@)[k]).1.len() > 0 && all_below(slot_views(slots@)[k].1, devs@.len()) by {
                        if k < prev.len() {
                            assert(prev[k].1.len() > 0 && all_below(prev[k].1, devs@.len()));
                        }
                    }
                }
            },
            None => {},
        }
    }
    slots
}


// ---------------------------------------------------------------------------
// Devices whose parent hub is missing
// ---------------------------------------------------------------------------

/// A device whose parent hub could not be read: it is no root hub and has
/// a parent port, but no device is that port's owner.
pub open spec fn is_orphan(devs: Seq<UsbDevice>, d: UsbDevice) -> bool {
    &&& !crate::device::is_root_hub_spec(d)
    &&& d.parent_port is Some
    &&& match owner_of_dev(d) {
        Some(o) => !(exists|j: int| 0 <= j < devs.len() && (#[trigger] devs[j]).node_key@ == o),
        None => true,
    }
}

/// Some root hub among `roots` is on bus `b`.
pub open spec fn on_buses(devs: Seq<UsbDevice>, roots: Seq<usize>, b: u8) -> bool {
    exists|k: int| 0 <= k < roots.len() && devs[(#[trigger] roots[k]) as int].bus == b
}

/// The orphans among the first `k` devices that sit on one of the buses
/// of `roots`, in device order.
pub open spec fn orphans_upto(devs: Seq<UsbDevice>, roots: Seq<usize>, k: int) -> Seq<usize>
    decreases k,
{
    if k <= 0 {
        seq![]
    } else {
        orphans_upto(devs, roots, k - 1) + if is_orphan(devs, devs[k - 1]) && on_buses(
            devs,
            roots,
            devs[k - 1].bus,
        ) {
            seq![(k - 1) as usize]
        } else {
            Seq::<usize>::empty()
        }
    }
}

/// The orphans on the buses of a controller's root hubs: they are shown at
/// the top of that controller's tree.
pub open spec fn orphans_of(devs: Seq<UsbDevice>, roots: Seq<usize>) -> Seq<usize> {
    orphans_upto(devs, roots, devs.len() as int)
}

fn has_node_key(devs: &[UsbDevice], key: &[char]) -> (r: bool)
    ensures
        r == exists|j: int| 0 <= j < devs@.len() && (#[trigger] devs@[j]).node_key@ == key@,
{
    let n = devs.len();
    for j in 0..n
        invariant
            n == devs@.len(),
            forall|i: int| 0 <= i < j ==> (#[trigger] devs@[i]).node_key@ != key@,
    {
        let kc = chars_of(devs[j].node_key.as_str());
        if chars_eq(kc.as_slice(), key) {
            return true;
        }
    }
    false
}

fn orphan_exec(devs: &[UsbDevice], d: &UsbDevice) -> (r: bool)
    ensures
        r == is_orphan(devs@, *d),
{
    if d.is_root_hub() || d.parent_port.is_none() {
        return false;
    }
    match dev_owner(d) {
        Some(o) => !has_node_key(devs, o.as_slice()),
        None => true,
    }
}

fn on_buses_exec(devs: &[UsbDevice], roots: &Vec<usize>, b: u8) -> (r: bool)
    requires
        all_below(roots@, devs@.len()),
    ensures
        r == on_buses(devs@, roots@, b),
{
    let n = roots.len();
    for k in 0..n
        invariant
            n == roots@.len(),
            all_below(roots@, devs@.len()),
            forall|i: int| 0 <= i < k ==> devs@[(#[trigger] roots@[i]) as int].bus != b,
    {
        if devs[roots[k]].bus == b {
            return true;
        }
    }
    false
}

/// The orphans on the buses of `roots`.
fn orphans_exec(devs: &[UsbDevice], roots: &Vec<usize>) -> (r: Vec<usize>)
    requires
        all_below(roots@, devs@.len()),
    ensures
        r@ == orphans_of(devs@, roots@),
        all_below(r@, devs@.len()),
{
    let n = devs.len();
    let mut r: Vec<usize> = Vec::new();
    for i in 0..n
        invariant
            n == devs@.len(),
            all_below(roots@, devs@.len()),
            r@ == orphans_upto(devs@, roots@, i as int),
            all_below(r@, devs@.len()),
    {
        if orphan_exec(devs, &devs[i]) && on_buses_exec(devs, roots, devs[i].bus) {
            r.push(i);
            assert(r@ =~= orphans_upto(devs@, roots@, i + 1));
        } else {
            assert(orphans_upto(devs@, roots@, i + 1) =~= orphans_upto(devs@, roots@, i as int));
        }
    }
    r
}


// ---------------------------------------------------------------------------
// The merged tree
// ---------------------------------------------------------------------------

/// Devices keyed so that ascending keys mean descending speed.
pub open spec fn speed_keyed(devs: Seq<UsbDevice>, s: Seq<usize>) -> Seq<(u64, usize)> {
    s.map_values(|i: usize| ((u64::MAX - devs[i as int].speed) as u64, i))
}

/// Devices stably sorted by descending speed.
pub open spec fn by_speed_desc(devs: Seq<UsbDevice>, s: Seq<usize>) -> Seq<usize> {
    sorted_by_key(speed_keyed(devs, s)).map_values(|p: (u64, usize)| p.1)
}

/// Whether a device is throttled: one whose port wiring is known runs at
/// USB 2.0 speed or below on a port wired for more than USB 2.0.
pub open spec fn limited_spec(d: UsbDevice, port_max: nat) -> bool {
    d.port_capability_known && (d.speed as nat) < port_max && port_max > 480_000 && d.speed <= 480_000
}

/// The device a slot shows: its fastest instance (the first among equals).
pub open spec fn slot_device(devs: Seq<UsbDevice>, slot: SlotSpec) -> usize {
    by_speed_desc(devs, slot.1)[0]
}

/// The sort key of a slot's node: its device's port number, 0 if none.
pub open spec fn slot_port_key(devs: Seq<UsbDevice>, slot: SlotSpec) -> u64 {
    match port_number_spec(devs[slot_device(devs, slot) as int]) {
        Some(p) => p as u64,
        None => 0,
    }
}

/// The slots' positions ordered stably by port number.
pub open spec fn slot_order(devs: Seq<UsbDevice>, slots: Seq<SlotSpec>) -> Seq<usize> {
    sorted_by_key(Seq::new(slots.len(), |k: int| (slot_port_key(devs, slots[k]), k as usize))).map_values(
        |p: (u64, usize)| p.1,
    )
}

/// The node of a slot: its fastest device, the port's capability, the
/// throttling flag, and the children of all its instances together.
pub open spec fn make_node(
    devs: Seq<UsbDevice>,
    pm: Map<Seq<char>, Seq<char>>,
    slot: SlotSpec,
    fuel: nat,
) -> NodeSpec
    decreases fuel, 1nat,
{
    let sorted = by_speed_desc(devs, slot.1);
    NodeSpec {
        dev: sorted[0],
        port_max_speed: slot.2,
        speed_limited: limited_spec(devs[sorted[0] as int], slot.2),
        children: children_spec(devs, pm, sorted, seq![], fuel),
    }
}

/// The merged children of one physical parent, given as its hub instances,
/// at most `fuel` levels deep: the slots of the attached devices and of
/// the `extra` devices placed under it, ordered by port number.
pub open spec fn children_spec(
    devs: Seq<UsbDevice>,
    pm: Map<Seq<char>, Seq<char>>,
    inst: Seq<usize>,
    extra: Seq<usize>,
    fuel: nat,
) -> Seq<NodeSpec>
    decreases fuel, 0nat,
{
    if fuel == 0 {
        seq![]
    } else {
        let att = attached_all(devs, inst) + extra;
        let slots = slots_upto(devs, pm, inst, att, att.len() as int);
        let order = slot_order(devs, slots);
        Seq::new(
            slots.len(),
            |m: int| make_node(devs, pm, slots[order[m] as int], (fuel - 1) as nat),
        )
    }
}

fn sort_by_speed_desc(devs: &[UsbDevice], s: &Vec<usize>) -> (r: Vec<usize>)
    requires
        all_below(s@, devs@.len()),
    ensures
        r@ == by_speed_desc(devs@, s@),
        r@.len() == s@.len(),
        all_below(r@, devs@.len()),
{
    let n = s.len();
    let mut keyed: Vec<(u64, usize)> = Vec::new();
    for k in 0..n
        invariant
            n == s@.len(),
            all_below(s@, devs@.len()),
            keyed@ == speed_keyed(devs@, s@.take(k as int)),
    {
        let i = s[k];
        keyed.push((u64::MAX - devs[i].speed, i));
        proof {
            assert(speed_keyed(devs@, s@.take(k + 1)) =~= speed_keyed(devs@, s@.take(k as int)).push(
                ((u64::MAX - devs@[i as int].speed) as u64, i),
            ));
        }
    }
    assert(s@.take(n as int) =~= s@);
    let sorted = sort_by_key(keyed);
    proof {
        lemma_sorted_elements(speed_keyed(devs@, s@));
    }
    let mut r: Vec<usize> = Vec::new();
    for k in 0..n
        invariant
            n == sorted@.len(),
            n == s@.len(),
            sorted@ == sorted_by_key(speed_keyed(devs@, s@)),
            all_below(s@, devs@.len()),
            forall|i: int| 0 <= i < n ==> speed_keyed(devs@, s@).contains(#[trigger] sorted@[i]),
            r@ == sorted@.take(k as int).map_values(|p: (u64, usize)| p.1),
            all_below(r@, devs@.len()),
    {
        proof {
            let e = sorted@[k as int];
            assert(speed_keyed(devs@, s@).contains(e));
            let j = choose|j: int| 0 <= j < speed_keyed(devs@, s@).len() && speed_keyed(devs@, s@)[j] == e;
            assert(e.1 == s@[j]);
        }
        r.push(sorted[k].1);
        proof {
            assert(sorted@.take(k + 1).map_values(|p: (u64, usize)| p.1) =~= sorted@.take(k as int).map_values(
                |p: (u64, usize)| p.1,
            ).push(sorted@[k as int].1));
        }
    }
    assert(sorted@.take(n as int) =~= sorted@);
    r
}

fn port_key_of(d: &UsbDevice) -> (r: u64)
    ensures
        r == match port_number_spec(*d) {
            Some(p) => p as u64,
            None => 0u64,
        },
{
    match d.port_number() {
        Some(p) => p as u64,
        None => 0,
    }
}

/// Build the merged children of one physical parent (a set of hub
/// instances), at most `fuel` levels deep.
fn build_children<'a>(
    devs: &'a [UsbDevice],
    peers: &PeerMap,
    inst: &Vec<usize>,
    extra: &Vec<usize>,
    fuel: usize,
) -> (r: Vec<PhysicalDevice<'a>>)
    requires
        all_below(inst@, devs@.len()),
        all_below(extra@, devs@.len()),
    ensures
        r@.len() == children_spec(devs@, peers.map(), inst@, extra@, fuel as nat).len(),
        forall|m: int|
            0 <= m < r@.len() ==> node_matches(
                devs@,
                #[trigger] r@[m],
                children_spec(devs@, peers.map(), inst@, extra@, fuel as nat)[m],
            ),
    decreases fuel,
{
    if fuel == 0 {
        return Vec::new();
    }
    let ghost pm = peers.map();
    let mut att = attached_to_all(devs, inst);
    proof {
        lemma_attached_all_below(devs@, inst@);
    }
    let ghost att0 = att@;
    let mut j: usize = 0;
    while j < extra.len()
        invariant
            j <= extra@.len(),
            all_below(extra@, devs@.len()),
            all_below(att0, devs@.len()),
            att@ == att0 + extra@.take(j as int),
        decreases extra@.len() - j,
    {
        att.push(extra[j]);
        assert(extra@.take(j + 1) =~= extra@.take(j as int).push(extra@[j as int]));
        assert(att@ =~= att0 + extra@.take(j + 1));
        j = j + 1;
    }
    assert(extra@.take(j as int) =~= extra@);
    assert(all_below(att@, devs@.len()));
    let slots = build_slots(devs, peers, inst, &att);
    let ghost sv = slot_views(slots@);
    let ghost spec_nodes = children_spec(devs@, pm, inst@, extra@, fuel as nat);
    // Each slot's devices, fastest first, and the slot's sort key
    let ns = slots.len();
    let mut sorted_devs: Vec<Vec<usize>> = Vec::new();
    let mut keyed: Vec<(u64, usize)> = Vec::new();
    for k in 0..ns
        invariant
            ns == slots@.len(),
            sv == slot_views(slots@),
            slots_ok(sv, devs@.len()),
            sorted_devs@.len() == k,
            keyed@.len() == k,
            forall|i: int| 0 <= i < k ==> (#[trigger] sorted_devs@[i])@ == by_speed_desc(devs@, sv[i].1),
            forall|i: int| 0 <= i < k ==> all_below((#[trigger] sorted_devs@[i])@, devs@.len()),
            forall|i: int| 0 <= i < k ==> (#[trigger] sorted_devs@[i])@.len() == sv[i].1.len(),
            forall|i: int| 0 <= i < k ==> #[trigger] keyed@[i] == (slot_port_key(devs@, sv[i]), i as usize),
    {
        proof {
            assert(sv[k as int].1 == slots@[k as int].1@);
            assert(sv[k as int].1.len() > 0 && all_below(sv[k as int].1, devs@.len()));
        }
        let sd = sort_by_speed_desc(devs, &slots[k].1);
        let key = port_key_of(&devs[sd[0]]);
        keyed.push((key, k));
        sorted_devs.push(sd);
    }
    assert(keyed@ =~= Seq::new(sv.len(), |k: int| (slot_port_key(devs@, sv[k]), k as usize)));
    let order = sort_by_key(keyed);
    proof {
        lemma_sorted_elements(Seq::new(sv.len(), |k: int| (slot_port_key(devs@, sv[k]), k as usize)));
    }
    let mut r: Vec<PhysicalDevice<'a>> = Vec::new();
    for m in 0..ns
        invariant
            ns == slots@.len(),
            ns == sv.len(),
            fuel > 0,
            pm == peers.map(),
            sv == slot_views(slots@),
            att@ == attached_all(devs@, inst@) + extra@,
            sv == slots_upto(devs@, pm, inst@, att@, att@.len() as int),
            slots_ok(sv, devs@.len()),
            sorted_devs@.len() == ns,
            forall|i: int| 0 <= i < ns ==> (#[trigger] sorted_devs@[i])@ == by_speed_desc(devs@, sv[i].1),
            forall|i: int| 0 <= i < ns ==> all_below((#[trigger] sorted_devs@[i])@, devs@.len()),
            forall|i: int| 0 <= i < ns ==> (#[trigger] sorted_devs@[i])@.len() == sv[i].1.len(),
            order@ == sorted_by_key(Seq::new(sv.len(), |k: int| (slot_port_key(devs@, sv[k]), k as usize))),
            order@.len() == ns,
            forall|i: int| 0 <= i < ns ==> Seq::new(sv.len(), |k: int| (slot_port_key(devs@, sv[k]), k as usize)).contains(#[trigger] order@[i]),
            spec_nodes == children_spec(devs@, pm, inst@, extra@, fuel as nat),
            r@.len() == m,
            forall|i: int| 0 <= i < m ==> node_matches(devs@, #[trigger] r@[i], spec_nodes[i]),
    {
        let k = order[m].1;
        proof {
            let src = Seq::new(sv.len(), |k: int| (slot_port_key(devs@, sv[k]), k as usize));
            assert(src.contains(order@[m as int]));
            let j = choose|j: int| 0 <= j < src.len() && src[j] == order@[m as int];
            assert(k == j);
            assert(slot_order(devs@, sv)[m as int] == k);
        }
        let sd = &sorted_devs[k];
        let d = sd[0];
        let none: Vec<usize> = Vec::new();
        let children = build_children(devs, peers, sd, &none, fuel - 1);
        let device = &devs[d];
        let max = slots[k].2;
        let limited = device.port_capability_known && device.speed < max && max > 480_000
            && device.speed <= 480_000;
        let node = PhysicalDevice { device, port_max_speed: max, speed_limited: limited, children };
        proof {
            let sn = make_node(devs@, pm, sv[k as int], (fuel - 1) as nat);
            assert(spec_nodes[m as int] == sn);
            assert(sn.dev == d);
            assert(none@ =~= Seq::<usize>::empty());
            assert(sn.children == children_spec(devs@, pm, sd@, none@, (fuel - 1) as nat));
            assert(node_matches(devs@, node, sn));
        }
        r.push(node);
    }
    r
}


// ---------------------------------------------------------------------------
// Controllers: root hubs grouped by peer links and PCI slots
// ---------------------------------------------------------------------------

/// The root hubs among the first `k` devices, in device order.
pub open spec fn roots_upto(devs: Seq<UsbDevice>, k: int) -> Seq<usize>
    decreases k,
{
    if k <= 0 {
        seq![]
    } else {
        roots_upto(devs, k - 1) + if crate::device::is_root_hub_spec(devs[k - 1]) {
            seq![(k - 1) as usize]
        } else {
            Seq::<usize>::empty()
        }
    }
}

/// The root hubs, in device order.
pub open spec fn roots_of(devs: Seq<UsbDevice>) -> Seq<usize> {
    roots_upto(devs, devs.len() as int)
}

/// Position among `roots` of the last root hub called `name`, -1 if none.
pub open spec fn root_pos(devs: Seq<UsbDevice>, roots: Seq<usize>, name: Seq<char>) -> int
    decreases roots.len(),
{
    if roots.len() == 0 {
        -1
    } else if key_of(devs, roots.last()) == name {
        roots.len() - 1
    } else {
        root_pos(devs, roots.drop_last(), name)
    }
}

/// Links between root hubs whose ports are peered, in peer-map order.
pub open spec fn peer_edges(devs: Seq<UsbDevice>, roots: Seq<usize>, pairs: Seq<(Seq<char>, Seq<char>)>) -> Seq<(int, int)>
    decreases pairs.len(),
{
    if pairs.len() == 0 {
        seq![]
    } else {
        let prev = peer_edges(devs, roots, pairs.drop_last());
        let (port, peer) = pairs.last();
        match (port_owner_spec(port), port_owner_spec(peer)) {
            (Some(a), Some(b)) => {
                let ia = root_pos(devs, roots, a);
                let ib = root_pos(devs, roots, b);
                if ia >= 0 && ib >= 0 {
                    prev.push((ia, ib))
                } else {
                    prev
                }
            },
            _ => prev,
        }
    }
}

/// The PCI slot of the root hub at position `r`.
pub open spec fn root_slot(devs: Seq<UsbDevice>, roots: Seq<usize>, r: int) -> Option<Seq<char>> {
    crate::device::opt_view(devs[roots[r] as int].pci_slot)
}

/// The first position below `k` whose root hub has PCI slot `s`, -1 if none.
pub open spec fn first_with_slot(devs: Seq<UsbDevice>, roots: Seq<usize>, s: Seq<char>, k: int) -> int
    decreases k,
{
    if k <= 0 {
        -1
    } else {
        let f = first_with_slot(devs, roots, s, k - 1);
        if f >= 0 {
            f
        } else if root_slot(devs, roots, k - 1) == Some(s) {
            k - 1
        } else {
            -1
        }
    }
}

/// Links from each root hub to the first earlier root hub with its PCI slot.
pub open spec fn slot_edges(devs: Seq<UsbDevice>, roots: Seq<usize>, k: int) -> Seq<(int, int)>
    decreases k,
{
    if k <= 0 {
        seq![]
    } else {
        let prev = slot_edges(devs, roots, k - 1);
        match root_slot(devs, roots, k - 1) {
            Some(s) => {
                let f = first_with_slot(devs, roots, s, k - 1);
                if f >= 0 {
                    prev.push((f, k - 1))
                } else {
                    prev
                }
            },
            None => prev,
        }
    }
}

/// Labels after merging along a sequence of links: every position labelled
/// like `a` takes `b`'s label.
pub open spec fn labels(n: nat, edges: Seq<(int, int)>) -> Seq<int>
    decreases edges.len(),
{
    if edges.len() == 0 {
        Seq::new(n, |i: int| i)
    } else {
        let lab = labels(n, edges.drop_last());
        let (a, b) = edges.last();
        Seq::new(n, |x: int| if lab[x] == lab[a] { lab[b] } else { lab[x] })
    }
}

/// Position of the last group whose first member carries `label`, -1 if none.
pub open spec fn find_group(groups: Seq<Seq<usize>>, lab: Seq<int>, label: int) -> int
    decreases groups.len(),
{
    if groups.len() == 0 {
        -1
    } else if lab[groups.last()[0] as int] == label {
        groups.len() - 1
    } else {
        find_group(groups.drop_last(), lab, label)
    }
}

/// The first `k` positions grouped by label, groups in order of their
/// first member, members ascending.
pub open spec fn groups_upto(lab: Seq<int>, k: int) -> Seq<Seq<usize>>
    decreases k,
{
    if k <= 0 {
        seq![]
    } else {
        let prev = groups_upto(lab, k - 1);
        let g = find_group(prev, lab, lab[k - 1]);
        if g >= 0 {
            prev.update(g, prev[g].push((k - 1) as usize))
        } else {
            prev.push(seq![(k - 1) as usize])
        }
    }
}

/// The root hub groups of a system: positions among [`roots_of`] grouped
/// by the links of peered root ports and shared PCI slots.
pub open spec fn root_groups(devs: Seq<UsbDevice>, pairs: Seq<(Seq<char>, Seq<char>)>) -> Seq<Seq<usize>> {
    let roots = roots_of(devs);
    let edges = peer_edges(devs, roots, pairs) + slot_edges(devs, roots, roots.len() as int);
    groups_upto(labels(roots.len(), edges), roots.len() as int)
}


fn root_indices(devs: &[UsbDevice]) -> (r: Vec<usize>)
    ensures
        r@ == roots_of(devs@),
        all_below(r@, devs@.len()),
{
    let n = devs.len();
    let mut r: Vec<usize> = Vec::new();
    for i in 0..n
        invariant
            n == devs@.len(),
            r@ == roots_upto(devs@, i as int),
            all_below(r@, devs@.len()),
    {
        if devs[i].is_root_hub() {
            r.push(i);
            assert(r@ =~= roots_upto(devs@, i + 1));
        } else {
            assert(roots_upto(devs@, i + 1) =~= roots_upto(devs@, i as int));
        }
    }
    r
}

fn root_pos_exec(devs: &[UsbDevice], roots: &Vec<usize>, name: &[char]) -> (r: Option<usize>)
    requires
        all_below(roots@, devs@.len()),
    ensures
        match r {
            Some(p) => root_pos(devs@, roots@, name@) == p as int && p < roots@.len(),
            None => root_pos(devs@, roots@, name@) == -1,
        },
{
    let mut k = roots.len();
    assert(roots@.take(k as int) =~= roots@);
    while k > 0
        invariant
            k <= roots@.len(),
            all_below(roots@, devs@.len()),
            root_pos(devs@, roots@, name@) == root_pos(devs@, roots@.take(k as int), name@),
        decreases k,
    {
        proof {
            assert(roots@.take(k as int).drop_last() =~= roots@.take(k - 1));
            assert(roots@.take(k as int).last() == roots@[k - 1]);
        }
        let kc = chars_of(devs[roots[k - 1]].node_key.as_str());
        if chars_eq(kc.as_slice(), name) {
            return Some(k - 1);
        }
        k = k - 1;
    }
    None
}

proof fn lemma_root_pos_range(devs: Seq<UsbDevice>, roots: Seq<usize>, name: Seq<char>)
    ensures
        -1 <= root_pos(devs, roots, name) < roots.len(),
    decreases roots.len(),
{
    if roots.len() > 0 && key_of(devs, roots.last()) != name {
        lemma_root_pos_range(devs, roots.drop_last(), name);
    }
}

proof fn lemma_first_with_slot_range(devs: Seq<UsbDevice>, roots: Seq<usize>, s: Seq<char>, k: int)
    requires
        k >= 0,
    ensures
        -1 <= first_with_slot(devs, roots, s, k) < k,
        first_with_slot(devs, roots, s, k) == -1 || first_with_slot(devs, roots, s, k) >= 0,
    decreases k,
{
    if k > 0 {
        lemma_first_with_slot_range(devs, roots, s, k - 1);
    }
}

fn first_with_slot_exec(devs: &[UsbDevice], roots: &Vec<usize>, s: &[char], k: usize) -> (r: Option<usize>)
    requires
        all_below(roots@, devs@.len()),
        k <= roots@.len(),
    ensures
        match r {
            Some(f) => first_with_slot(devs@, roots@, s@, k as int) == f as int && f < k,
            None => first_with_slot(devs@, roots@, s@, k as int) == -1,
        },
{
    for i in 0..k
        invariant
            k <= roots@.len(),
            all_below(roots@, devs@.len()),
            first_with_slot(devs@, roots@, s@, i as int) == -1,
    {
        match &devs[roots[i]].pci_slot {
            Some(slot) => {
                let sc = chars_of(slot.as_str());
                if chars_eq(sc.as_slice(), s) {
                    proof {
                        assert(first_with_slot(devs@, roots@, s@, i + 1) == i);
                        lemma_first_stays(devs@, roots@, s@, i + 1, k as int);
                    }
                    return Some(i);
                }
            },
            None => {},
        }
    }
    None
}

proof fn lemma_first_stays(devs: Seq<UsbDevice>, roots: Seq<usize>, s: Seq<char>, k: int, m: int)
    requires
        k <= m,
        first_with_slot(devs, roots, s, k) >= 0,
    ensures
        first_with_slot(devs, roots, s, m) == first_with_slot(devs, roots, s, k),
    decreases m - k,
{
    if m > k {
        lemma_first_stays(devs, roots, s, k, m - 1);
    }
}

/// Union-find classes agree with labels.
spec fn uf_matches(uf: UnionFind, lab: Seq<int>) -> bool {
    &&& uf.wf()
    &&& uf.size() == lab.len()
    &&& forall|x: int, y: int|
        0 <= x < lab.len() && 0 <= y < lab.len() ==> (uf.root(x) == uf.root(y) <==> lab[x] == lab[y])
}

fn union_edge(uf: &mut UnionFind, a: usize, b: usize, Ghost(edges): Ghost<Seq<(int, int)>>)
    requires
        uf_matches(*old(uf), labels(old(uf).size(), edges)),
        a < old(uf).size(),
        b < old(uf).size(),
    ensures
        uf_matches(*final(uf), labels(old(uf).size(), edges.push((a as int, b as int)))),
        final(uf).size() == old(uf).size(),
{
    let ghost n = uf.size();
    let ghost lab = labels(n, edges);
    let ghost before = *uf;
    uf.union(a, b);
    proof {
        assert(edges.push((a as int, b as int)).drop_last() =~= edges);
        let lab2 = labels(n, edges.push((a as int, b as int)));
        assert forall|x: int, y: int| 0 <= x < n && 0 <= y < n implies (uf.root(x) == uf.root(y) <==> lab2[x] == lab2[y]) by {
            assert(before.root(x) == before.root(a as int) <==> lab[x] == lab[a as int]);
            assert(before.root(y) == before.root(a as int) <==> lab[y] == lab[a as int]);
            assert(before.root(x) == before.root(b as int) <==> lab[x] == lab[b as int]);
            assert(before.root(y) == before.root(b as int) <==> lab[y] == lab[b as int]);
            assert(before.root(x) == before.root(y) <==> lab[x] == lab[y]);
        }
    }
}


/// The root hub groups' members' positions.
spec fn group_views(s: Seq<(usize, Vec<usize>)>) -> Seq<Seq<usize>> {
    s.map_values(|t: (usize, Vec<usize>)| t.1@)
}

/// The edges the peer links and PCI slots give.
pub open spec fn root_edges(devs: Seq<UsbDevice>, pairs: Seq<(Seq<char>, Seq<char>)>) -> Seq<(int, int)> {
    peer_edges(devs, roots_of(devs), pairs) + slot_edges(devs, roots_of(devs), roots_of(devs).len() as int)
}

/// Each group is non-empty, its members are positions below `n`.
pub open spec fn groups_ok(groups: Seq<Seq<usize>>, n: nat) -> bool {
    forall|g: int| 0 <= g < groups.len() ==> (#[trigger] groups[g]).len() > 0 && all_below(groups[g], n)
}

proof fn lemma_find_group_range(groups: Seq<Seq<usize>>, lab: Seq<int>, label: int)
    ensures
        -1 <= find_group(groups, lab, label) < groups.len(),
    decreases groups.len(),
{
    if groups.len() > 0 && lab[groups.last()[0] as int] != label {
        lemma_find_group_range(groups.drop_last(), lab, label);
    }
}

/// Group root hubs into physical controllers. Primary signal: peer links
/// between their ports. Fallback for kernels without port peering: a shared
/// PCI slot. Buses without either become their own controller. Returns
/// positions among the root hubs.
fn group_root_hubs(devs: &[UsbDevice], peers: &PeerMap, roots: &Vec<usize>) -> (r: Vec<Vec<usize>>)
    requires
        roots@ == roots_of(devs@),
        all_below(roots@, devs@.len()),
    ensures
        r@.map_values(|v: Vec<usize>| v@) == root_groups(devs@, peers.pairs()),
        groups_ok(r@.map_values(|v: Vec<usize>| v@), roots@.len()),
{
    let n = roots.len();
    let mut uf = UnionFind::new(n);
    let ghost mut edges: Seq<(int, int)> = Seq::empty();
    proof {
        assert forall|x: int, y: int| 0 <= x < n && 0 <= y < n implies (uf.root(x) == uf.root(y) <==> labels(n as nat, edges)[x] == labels(n as nat, edges)[y]) by {}
    }
    // Union buses whose root ports are peered
    let np = peers.len();
    assert(peers.pairs().take(0) =~= Seq::<(Seq<char>, Seq<char>)>::empty());
    for i in 0..np
        invariant
            np == peers.pairs().len(),
            n == roots@.len(),
            roots@ == roots_of(devs@),
            all_below(roots@, devs@.len()),
            uf.size() == n,
            uf_matches(uf, labels(n as nat, edges)),
            edges == peer_edges(devs@, roots@, peers.pairs().take(i as int)),
            forall|e: int| 0 <= e < edges.len() ==> 0 <= (#[trigger] edges[e]).0 < n && 0 <= edges[e].1 < n,
    {
        proof {
            let t = peers.pairs().take(i + 1);
            assert(t.drop_last() =~= peers.pairs().take(i as int));
            assert(t.last() == peers.pairs()[i as int]);
        }
        let port = chars_of(peers.port_at(i).as_str());
        let peer = chars_of(peers.peer_at(i).as_str());
        let a = match port_owner_chars(port.as_slice()) {
            Some(o) => root_pos_exec(devs, roots, o.as_slice()),
            None => None,
        };
        let b = match port_owner_chars(peer.as_slice()) {
            Some(o) => root_pos_exec(devs, roots, o.as_slice()),
            None => None,
        };
        proof {
            match port_owner_spec(port@) {
                Some(o) => lemma_root_pos_range(devs@, roots@, o),
                None => {},
            }
            match port_owner_spec(peer@) {
                Some(o) => lemma_root_pos_range(devs@, roots@, o),
                None => {},
            }
        }
        match (a, b) {
            (Some(ia), Some(ib)) => {
                union_edge(&mut uf, ia, ib, Ghost(edges));
                proof {
                    edges = edges.push((ia as int, ib as int));
                }
            },
            _ => {},
        }
    }
    proof {
        assert(peers.pairs().take(np as int) =~= peers.pairs());
    }
    let ghost pe = edges;
    assert(edges =~= pe + slot_edges(devs@, roots@, 0));
    // Union buses sharing a PCI slot
    for r in 0..n
        invariant
            n == roots@.len(),
            roots@ == roots_of(devs@),
            all_below(roots@, devs@.len()),
            uf.size() == n,
            uf_matches(uf, labels(n as nat, edges)),
            pe == peer_edges(devs@, roots@, peers.pairs()),
            edges == pe + slot_edges(devs@, roots@, r as int),
    {
        let ghost prev = edges;
        match &devs[roots[r]].pci_slot {
            Some(slot) => {
                let sc = chars_of(slot.as_str());
                match first_with_slot_exec(devs, roots, sc.as_slice(), r) {
                    Some(f) => {
                        union_edge(&mut uf, f, r, Ghost(edges));
                        proof {
                            edges = edges.push((f as int, r as int));
                            assert(edges =~= pe + slot_edges(devs@, roots@, r + 1));
                        }
                    },
                    None => {
                        assert(edges =~= pe + slot_edges(devs@, roots@, r + 1));
                    },
                }
            },
            None => {
                assert(edges =~= pe + slot_edges(devs@, roots@, r + 1));
            },
        }
    }
    let ghost lab = labels(n as nat, edges);
    assert(lab == labels(roots_of(devs@).len(), root_edges(devs@, peers.pairs())));
    // Group by representative
    let mut groups: Vec<(usize, Vec<usize>)> = Vec::new();
    assert(group_views(groups@) =~= Seq::<Seq<usize>>::empty());
    for r in 0..n
        invariant
            n == roots@.len(),
            uf.size() == n,
            uf_matches(uf, lab),
            lab.len() == n,
            group_views(groups@) == groups_upto(lab, r as int),
            groups_ok(group_views(groups@), r as nat),
            forall|g: int| 0 <= g < groups@.len() ==> (#[trigger] groups@[g]).0 == uf.root(groups@[g].1@[0] as int),
    {
        let ghost uf_before = uf;
        let f = uf.find(r);
        let ghost gv = group_views(groups@);
        proof {
            lemma_find_group_range(gv, lab, lab[r as int]);
            assert forall|g: int| 0 <= g < groups@.len() implies (#[trigger] groups@[g]).0 == uf.root(groups@[g].1@[0] as int) by {
                assert(gv[g] == groups@[g].1@);
                assert(gv[g].len() > 0 && all_below(gv[g], r as nat));
                assert(uf.root(groups@[g].1@[0] as int) == uf_before.root(groups@[g].1@[0] as int));
            }
            assert forall|x: int, y: int| 0 <= x < lab.len() && 0 <= y < lab.len() implies (uf.root(x) == uf.root(y) <==> lab[x] == lab[y]) by {
                assert(uf.root(x) == uf_before.root(x));
                assert(uf.root(y) == uf_before.root(y));
            }
            assert(gv.take(groups@.len() as int) =~= gv);
        }
        // Search the groups from the last one
        let mut k = groups.len();
        let mut found: Option<usize> = None;
        while k > 0 && found.is_none()
            invariant
                k <= groups@.len(),
                gv == group_views(groups@),
                uf_matches(uf, lab),
                lab.len() == n,
                r < n,
                f == uf.root(r as int),
                groups_ok(gv, r as nat),
                forall|g: int| 0 <= g < groups@.len() ==> (#[trigger] groups@[g]).0 == uf.root(groups@[g].1@[0] as int),
                found is None ==> find_group(gv, lab, lab[r as int]) == find_group(gv.take(k as int), lab, lab[r as int]),
                found matches Some(p) ==> find_group(gv, lab, lab[r as int]) == p as int,
            decreases k, if found is None { 1int } else { 0int },
        {
            proof {
                let t = gv.take(k as int);
                assert(t.drop_last() =~= gv.take(k - 1));
                assert(t.last() == gv[k - 1]);
                assert(gv[k - 1] == groups@[k - 1].1@);
                assert(gv[k - 1].len() > 0);
                assert(gv[k - 1][0] < r);
            }
            if groups[k - 1].0 == f {
                found = Some(k - 1);
            } else {
                k = k - 1;
            }
        }
        match found {
            Some(p) => {
                let (rep, mut members) = groups.remove(p);
                members.push(r);
                groups.insert(p, (rep, members));
                proof {
                    assert(group_views(groups@) =~= gv.update(p as int, gv[p as int].push(r)));
                    assert(groups_upto(lab, r + 1) == gv.update(p as int, gv[p as int].push(r)));
                    assert forall|g: int| 0 <= g < groups@.len() implies (#[trigger] groups@[g]).0 == uf.root(groups@[g].1@[0] as int) by {
                        if g == p as int {
                            assert(groups@[g].1@[0] == gv[g][0]);
                        }
                    }
                }
            },
            None => {
                proof {
                    assert(find_group(gv.take(0), lab, lab[r as int]) == -1);
                }
                let mut members: Vec<usize> = Vec::new();
                members.push(r);
                groups.push((f, members));
                proof {
                    assert(group_views(groups@) =~= gv.push(seq![r]));
                }
            },
        }
        proof {
            assert forall|g: int| 0 <= g < group_views(groups@).len() implies (#[trigger] group_views(groups@)[g]).len() > 0 && all_below(group_views(groups@)[g], (r + 1) as nat) by {
                if g < gv.len() {
                    assert(gv[g].len() > 0 && all_below(gv[g], r as nat));
                }
            }
        }
    }
    let mut out: Vec<Vec<usize>> = Vec::new();
    let ng = groups.len();
    for g in 0..ng
        invariant
            ng == groups@.len(),
            out@.len() == g,
            forall|h: int| 0 <= h < g ==> (#[trigger] out@[h])@ == groups@[h].1@,
    {
        let v = copy_usizes(&groups[g].1);
        out.push(v);
    }
    proof {
        assert(out@.map_values(|v: Vec<usize>| v@) =~= group_views(groups@));
    }
    out
}

fn copy_usizes(v: &Vec<usize>) -> (r: Vec<usize>)
    ensures
        r@ == v@,
{
    let mut r: Vec<usize> = Vec::new();
    let n = v.len();
    for i in 0..n
        invariant
            n == v@.len(),
            r@ == v@.take(i as int),
    {
        r.push(v[i]);
        assert(v@.take(i + 1) =~= v@.take(i as int).push(v@[i as int]));
    }
    assert(v@.take(n as int) =~= v@);
    r
}


// ---------------------------------------------------------------------------
// The controllers
// ---------------------------------------------------------------------------

/// A physical USB controller (one or more companion buses).
pub struct PhysicalController<'a> {
    /// PCI slot of the controller, if known (from the root hub serial)
    pub pci_slot: Option<String>,
    /// Root hubs on this controller, sorted by speed (highest first)
    pub root_hubs: Vec<&'a UsbDevice>,
    /// Maximum speed across all companion buses, in kbit/s
    pub max_speed: u64,
    /// Merged physical device tree
    pub children: Vec<PhysicalDevice<'a>>,
}

/// A controller as the contracts describe it.
pub struct CtrlSpec {
    pub roots: Seq<usize>,
    pub max_speed: nat,
    pub pci_slot: Option<Seq<char>>,
    pub children: Seq<NodeSpec>,
}

/// The fastest speed among the devices, 0 for none.
pub open spec fn max_speed_of(devs: Seq<UsbDevice>, s: Seq<usize>) -> nat
    decreases s.len(),
{
    if s.len() == 0 {
        0
    } else {
        let prev = max_speed_of(devs, s.drop_last());
        let here = devs[s.last() as int].speed as nat;
        if prev >= here {
            prev
        } else {
            here
        }
    }
}

/// The PCI slot of the first device that has one.
pub open spec fn first_slot(devs: Seq<UsbDevice>, s: Seq<usize>) -> Option<Seq<char>>
    decreases s.len(),
{
    if s.len() == 0 {
        None
    } else if devs[s[0] as int].pci_slot is Some {
        crate::device::opt_view(devs[s[0] as int].pci_slot)
    } else {
        first_slot(devs, s.drop_first())
    }
}

/// The lowest bus number among the devices, 0 for none.
pub open spec fn min_bus(devs: Seq<UsbDevice>, s: Seq<usize>) -> u64
    decreases s.len(),
{
    if s.len() == 0 {
        0
    } else if s.len() == 1 {
        devs[s[0] as int].bus as u64
    } else {
        let prev = min_bus(devs, s.drop_last());
        let here = devs[s.last() as int].bus as u64;
        if prev <= here {
            prev
        } else {
            here
        }
    }
}

/// The controller a group of root hub positions forms: its root hubs
/// fastest first, their top speed, the first PCI slot among them, and the
/// merged tree below them, with the orphans on their buses at its top.
pub open spec fn ctrl_spec(devs: Seq<UsbDevice>, pm: Map<Seq<char>, Seq<char>>, group: Seq<usize>) -> CtrlSpec {
    let roots = roots_of(devs);
    let members = group.map_values(|p: usize| roots[p as int]);
    let sorted = by_speed_desc(devs, members);
    CtrlSpec {
        roots: sorted,
        max_speed: max_speed_of(devs, sorted),
        pci_slot: first_slot(devs, sorted),
        children: children_spec(devs, pm, sorted, orphans_of(devs, sorted), devs.len()),
    }
}

/// The physical topology: one controller per root hub group, ordered
/// stably by their lowest bus number.
pub open spec fn topology_spec(
    devs: Seq<UsbDevice>,
    pm: Map<Seq<char>, Seq<char>>,
    pairs: Seq<(Seq<char>, Seq<char>)>,
) -> Seq<CtrlSpec> {
    let groups = root_groups(devs, pairs);
    let ctrls = Seq::new(groups.len(), |g: int| ctrl_spec(devs, pm, groups[g]));
    let order = sorted_by_key(
        Seq::new(groups.len(), |g: int| (min_bus(devs, ctrls[g].roots), g as usize)),
    ).map_values(|p: (u64, usize)| p.1);
    Seq::new(groups.len(), |m: int| ctrls[order[m] as int])
}

/// An exec controller shows what a spec controller describes.
pub open spec fn ctrl_matches(devs: Seq<UsbDevice>, c: PhysicalController, s: CtrlSpec) -> bool {
    &&& c.root_hubs@.len() == s.roots.len()
    &&& forall|i: int| 0 <= i < s.roots.len() ==> 0 <= s.roots[i] < devs.len() && *(#[trigger] c.root_hubs@[i]) == devs[s.roots[i] as int]
    &&& c.max_speed as nat == s.max_speed
    &&& crate::sysfs::same_opt(c.pci_slot, s.pci_slot)
    &&& c.children@.len() == s.children.len()
    &&& forall|i: int| 0 <= i < s.children.len() ==> node_matches(devs, #[trigger] c.children@[i], s.children[i])
}

fn max_speed_exec(devs: &[UsbDevice], s: &Vec<usize>) -> (r: u64)
    requires
        all_below(s@, devs@.len()),
    ensures
        r as nat == max_speed_of(devs@, s@),
{
    let n = s.len();
    let mut best: u64 = 0;
    assert(s@.take(0) =~= Seq::<usize>::empty());
    for i in 0..n
        invariant
            n == s@.len(),
            all_below(s@, devs@.len()),
            best as nat == max_speed_of(devs@, s@.take(i as int)),
    {
        proof {
            assert(s@.take(i + 1).drop_last() =~= s@.take(i as int));
            assert(s@.take(i + 1).last() == s@[i as int]);
        }
        let sp = devs[s[i]].speed;
        if sp > best {
            best = sp;
        }
    }
    assert(s@.take(n as int) =~= s@);
    best
}

fn min_bus_exec(devs: &[UsbDevice], s: &Vec<usize>) -> (r: u64)
    requires
        all_below(s@, devs@.len()),
    ensures
        r == min_bus(devs@, s@),
{
    let n = s.len();
    if n == 0 {
        return 0;
    }
    let mut best: u64 = devs[s[0]].bus as u64;
    assert(s@.take(1) =~= seq![s@[0]]);
    for i in 1..n
        invariant
            n == s@.len(),
            all_below(s@, devs@.len()),
            best == min_bus(devs@, s@.take(i as int)),
    {
        proof {
            assert(s@.take(i + 1).drop_last() =~= s@.take(i as int));
            assert(s@.take(i + 1).last() == s@[i as int]);
        }
        let b = devs[s[i]].bus as u64;
        if b < best {
            best = b;
        }
    }
    assert(s@.take(n as int) =~= s@);
    best
}

fn first_slot_exec(devs: &[UsbDevice], s: &Vec<usize>) -> (r: Option<String>)
    requires
        all_below(s@, devs@.len()),
    ensures
        crate::sysfs::same_opt(r, first_slot(devs@, s@)),
{
    let n = s.len();
    let mut i: usize = 0;
    assert(s@.skip(0) =~= s@);
    while i < n
        invariant
            n == s@.len(),
            i <= n,
            all_below(s@, devs@.len()),
            first_slot(devs@, s@) == first_slot(devs@, s@.skip(i as int)),
        decreases n - i,
    {
        proof {
            assert(s@.skip(i as int)[0] == s@[i as int]);
            assert(s@.skip(i as int).drop_first() =~= s@.skip(i + 1));
        }
        match &devs[s[i]].pci_slot {
            Some(slot) => {
                return Some(crate::text::string_of(chars_of(slot.as_str()).as_slice()));
            },
            None => {},
        }
        i = i + 1;
    }
    None
}

fn root_refs<'a>(devs: &'a [UsbDevice], s: &Vec<usize>) -> (r: Vec<&'a UsbDevice>)
    requires
        all_below(s@, devs@.len()),
    ensures
        r@.len() == s@.len(),
        forall|i: int| 0 <= i < s@.len() ==> *(#[trigger] r@[i]) == devs@[s@[i] as int],
{
    let n = s.len();
    let mut r: Vec<&'a UsbDevice> = Vec::new();
    for i in 0..n
        invariant
            n == s@.len(),
            all_below(s@, devs@.len()),
            r@.len() == i,
            forall|j: int| 0 <= j < i ==> *(#[trigger] r@[j]) == devs@[s@[j] as int],
    {
        r.push(&devs[s[i]]);
    }
    r
}

/// Build the physical topology by merging companion buses.
///
/// Physical identity comes from the port peer links: peered ports
/// ("usb1-port3" <-> "usb2-port3") are the USB 2.0 and USB 3.x side of the
/// same connector. Ports without a peer are single-signal (e.g. internal
/// USB 2.0-only headers) and are never merged. A device whose parent hub
/// could not be read is shown at the top of its bus's controller, on a
/// port of unknown capability, together with everything below it. Trees
/// are built at most as many levels deep as there are devices.
pub fn build_physical_topology<'a>(devices: &'a [UsbDevice], peers: &PeerMap) -> (r: Vec<
    PhysicalController<'a>,
>)
    ensures
        r@.len() == topology_spec(devices@, peers.map(), peers.pairs()).len(),
        forall|m: int|
            0 <= m < r@.len() ==> ctrl_matches(
                devices@,
                #[trigger] r@[m],
                topology_spec(devices@, peers.map(), peers.pairs())[m],
            ),
        forall|m: int| 0 <= m < r@.len() ==> (#[trigger] r@[m]).root_hubs@.len() > 0,
{
    let ghost devs = devices@;
    let ghost pm = peers.map();
    let roots = root_indices(devices);
    let groups = group_root_hubs(devices, peers, &roots);
    let ghost gs = root_groups(devs, peers.pairs());
    let ghost ctrls = Seq::new(gs.len(), |g: int| ctrl_spec(devs, pm, gs[g]));
    let ng = groups.len();
    let mut sorted_roots: Vec<Vec<usize>> = Vec::new();
    let mut keyed: Vec<(u64, usize)> = Vec::new();
    for g in 0..ng
        invariant
            ng == groups@.len(),
            groups@.map_values(|v: Vec<usize>| v@) == gs,
            groups_ok(gs, roots@.len()),
            roots@ == roots_of(devs),
            all_below(roots@, devs.len()),
            devs == devices@,
            ctrls == Seq::new(gs.len(), |g: int| ctrl_spec(devs, pm, gs[g])),
            sorted_roots@.len() == g,
            keyed@.len() == g,
            forall|h: int| 0 <= h < g ==> (#[trigger] sorted_roots@[h])@ == ctrls[h].roots,
            forall|h: int| 0 <= h < g ==> all_below((#[trigger] sorted_roots@[h])@, devs.len()),
            forall|h: int| 0 <= h < g ==> (#[trigger] sorted_roots@[h])@.len() > 0,
            forall|h: int| 0 <= h < g ==> #[trigger] keyed@[h] == (min_bus(devs, ctrls[h].roots), h as usize),
    {
        proof {
            assert(gs[g as int] == groups@[g as int]@);
            assert(gs[g as int].len() > 0 && all_below(gs[g as int], roots@.len()));
        }
        let grp = &groups[g];
        let mut members: Vec<usize> = Vec::new();
        let k = grp.len();
        for i in 0..k
            invariant
                k == grp@.len(),
                all_below(grp@, roots@.len()),
                all_below(roots@, devs.len()),
                members@ == grp@.take(i as int).map_values(|p: usize| roots@[p as int]),
                all_below(members@, devs.len()),
        {
            members.push(roots[grp[i]]);
            proof {
                assert(grp@.take(i + 1).map_values(|p: usize| roots@[p as int]) =~= grp@.take(
                    i as int,
                ).map_values(|p: usize| roots@[p as int]).push(roots@[grp@[i as int] as int]));
            }
        }
        proof {
            assert(grp@.take(k as int) =~= grp@);
        }
        let sd = sort_by_speed_desc(devices, &members);
        assert(sd@.len() > 0);
        let mb = min_bus_exec(devices, &sd);
        keyed.push((mb, g));
        sorted_roots.push(sd);
    }
    let ghost src = Seq::new(gs.len(), |g: int| (min_bus(devs, ctrls[g].roots), g as usize));
    assert(keyed@ =~= src);
    let order = sort_by_key(keyed);
    proof {
        lemma_sorted_elements(src);
    }
    let mut r: Vec<PhysicalController<'a>> = Vec::new();
    for m in 0..ng
        invariant
            ng == gs.len(),
            devs == devices@,
            pm == peers.map(),
            ctrls == Seq::new(gs.len(), |g: int| ctrl_spec(devs, pm, gs[g])),
            gs == root_groups(devs, peers.pairs()),
            sorted_roots@.len() == ng,
            forall|h: int| 0 <= h < ng ==> (#[trigger] sorted_roots@[h])@ == ctrls[h].roots,
            forall|h: int| 0 <= h < ng ==> all_below((#[trigger] sorted_roots@[h])@, devs.len()),
            forall|h: int| 0 <= h < ng ==> (#[trigger] sorted_roots@[h])@.len() > 0,
            order@ == sorted_by_key(src),
            src == Seq::new(gs.len(), |g: int| (min_bus(devs, ctrls[g].roots), g as usize)),
            order@.len() == ng,
            forall|i: int| 0 <= i < ng ==> src.contains(#[trigger] order@[i]),
            r@.len() == m,
            forall|i: int| 0 <= i < m ==> ctrl_matches(devs, #[trigger] r@[i], topology_spec(devs, pm, peers.pairs())[i]),
            forall|i: int| 0 <= i < m ==> (#[trigger] r@[i]).root_hubs@.len() > 0,
    {
        let g = order[m].1;
        proof {
            assert(src.contains(order@[m as int]));
            let j = choose|j: int| 0 <= j < src.len() && src[j] == order@[m as int];
            assert(g == j);
        }
        let sd = &sorted_roots[g];
        let hubs = root_refs(devices, sd);
        let max_speed = max_speed_exec(devices, sd);
        let pci_slot = first_slot_exec(devices, sd);
        let strays = orphans_exec(devices, sd);
        let children = build_children(devices, peers, sd, &strays, devices.len());
        let c = PhysicalController { pci_slot, root_hubs: hubs, max_speed, children };
        proof {
            let t = topology_spec(devs, pm, peers.pairs());
            assert(t[m as int] == ctrls[g as int]);
            assert(ctrl_matches(devs, c, ctrls[g as int]));
        }
        r.push(c);
    }
    r
}


// ---------------------------------------------------------------------------
// Filtering the tree
// ---------------------------------------------------------------------------

/// A tree node by value: device, port capability, throttling flag and children.
pub struct TreeView {
    pub device: UsbDevice,
    pub port_max_speed: nat,
    pub speed_limited: bool,
    pub children: Seq<TreeView>,
}

/// The value of an exec tree node.
pub open spec fn tree_view(n: PhysicalDevice) -> TreeView
    decreases n,
{
    TreeView {
        device: *n.device,
        port_max_speed: n.port_max_speed as nat,
        speed_limited: n.speed_limited,
        children: trees_view(n.children@),
    }
}

/// The values of exec tree nodes.
pub open spec fn trees_view(ns: Seq<PhysicalDevice>) -> Seq<TreeView>
    decreases ns,
{
    if ns.len() == 0 {
        seq![]
    } else {
        let last = ns[ns.len() - 1];
        proof {
            assert(decreases_to!(ns => last));
        }
        trees_view(ns.subrange(0, ns.len() - 1)).push(tree_view(last))
    }
}

/// Tree nodes pruned to the branches holding a device that passes
/// `keep`: a node stays if its device passes or a child stays.
pub open spec fn prune_trees(ts: Seq<TreeView>, keep: spec_fn(UsbDevice) -> bool) -> Seq<TreeView>
    decreases ts,
{
    if ts.len() == 0 {
        seq![]
    } else {
        let last = ts[ts.len() - 1];
        proof {
            assert(decreases_to!(ts => last));
        }
        prune_trees(ts.subrange(0, ts.len() - 1), keep) + prune_tree(last, keep)
    }
}

/// One node pruned: kept, with its pruned children, if its device passes
/// or a child stays.
pub open spec fn prune_tree(t: TreeView, keep: spec_fn(UsbDevice) -> bool) -> Seq<TreeView>
    decreases t,
{
    let c = prune_trees(t.children, keep);
    if keep(t.device) || c.len() > 0 {
        seq![TreeView { children: c, ..t }]
    } else {
        seq![]
    }
}


/// Recursively filter a physical device tree to only the branches that
/// contain a device passing `pred`.
pub fn filter_physical_tree<'a>(children: &mut Vec<PhysicalDevice<'a>>, pred: &DeviceFilter)
    ensures
        trees_view(final(children)@) == prune_trees(
            trees_view(old(children)@),
            |d: UsbDevice| device_filter_spec(*pred, d),
        ),
    decreases old(children)@,
{
    let ghost keep = |d: UsbDevice| device_filter_spec(*pred, d);
    let mut rest: Vec<PhysicalDevice<'a>> = Vec::new();
    std::mem::swap(&mut rest, children);
    let ghost orig = rest@;
    assert(orig == old(children)@);
    let mut out: Vec<PhysicalDevice<'a>> = Vec::new();
    let ghost mut done: int = 0;
    assert(orig.take(0) =~= Seq::<PhysicalDevice>::empty());
    while rest.len() > 0
        invariant
            orig == old(children)@,
            0 <= done <= orig.len(),
            rest@ == orig.skip(done),
            trees_view(out@) == prune_trees(trees_view(orig.take(done)), keep),
            keep == (|d: UsbDevice| device_filter_spec(*pred, d)),
        decreases rest@.len(),
    {
        let mut node = rest.remove(0);
        proof {
            assert(node == orig[done]);
            assert(rest@ =~= orig.skip(done + 1));
        }
        let ghost node0 = node;
        let mut kids: Vec<PhysicalDevice<'a>> = Vec::new();
        std::mem::swap(&mut kids, &mut node.children);
        proof {
            assert(kids@ == node0.children@);
            assert(decreases_to!(orig => orig[done]));
            assert(decreases_to!(orig[done] => orig[done].children));
            assert(decreases_to!(orig[done].children => orig[done].children@));
            assert(decreases_to!(orig => kids@));
        }
        filter_physical_tree(&mut kids, pred);
        let keep_node = pred.matches(node.device) || kids.len() > 0;
        proof {
            assert(trees_view(kids@).len() == kids@.len()) by {
                lemma_trees_view_len(kids@);
            }
        }
        node.children = kids;
        let ghost before = out@;
        if keep_node {
            out.push(node);
        }
        proof {
            let t = orig.take(done + 1);
            assert(t.subrange(0, t.len() - 1) =~= orig.take(done));
            assert(t[t.len() - 1] == node0);
            assert(trees_view(t) == trees_view(orig.take(done)).push(tree_view(node0)));
            let tv = trees_view(orig.take(done)).push(tree_view(node0));
            assert(tv.subrange(0, tv.len() - 1) =~= trees_view(orig.take(done)));
            assert(prune_trees(tv, keep) == prune_trees(trees_view(orig.take(done)), keep) + prune_tree(tree_view(node0), keep));
            if keep_node {
                assert(out@.subrange(0, out@.len() - 1) =~= before);
                assert(trees_view(out@) =~= trees_view(before).push(tree_view(node)));
                assert(prune_tree(tree_view(node0), keep) =~= seq![tree_view(node)]);
            } else {
                assert(prune_tree(tree_view(node0), keep) =~= Seq::<TreeView>::empty());
                assert(trees_view(out@) =~= trees_view(before) + Seq::<TreeView>::empty());
            }
            done = done + 1;
        }
    }
    proof {
        assert(orig.take(done) =~= orig);
    }
    *children = out;
}

/// The view of a node row has one tree per node.
pub proof fn lemma_trees_view_len(ns: Seq<PhysicalDevice>)
    ensures
        trees_view(ns).len() == ns.len(),
    decreases ns.len(),
{
    if ns.len() > 0 {
        lemma_trees_view_len(ns.subrange(0, ns.len() - 1));
    }
}


/// The view of a node row holds the view of each node, in order.
pub proof fn lemma_trees_view_index(ns: Seq<PhysicalDevice>, i: int)
    requires
        0 <= i < ns.len(),
    ensures
        trees_view(ns).len() == ns.len(),
        trees_view(ns)[i] == tree_view(ns[i]),
    decreases ns.len(),
{
    lemma_trees_view_len(ns);
    if i < ns.len() - 1 {
        lemma_trees_view_index(ns.subrange(0, ns.len() - 1), i);
    }
}


// ---------------------------------------------------------------------------
// Companion buses end up in one controller
// ---------------------------------------------------------------------------

/// Positions `i` and `j` are members of one group.
pub open spec fn same_group(groups: Seq<Seq<usize>>, i: int, j: int) -> bool {
    exists|g: int| 0 <= g < groups.len() && (#[trigger] groups[g]).contains(i as usize) && groups[g].contains(j as usize)
}

proof fn lemma_labels_len(n: nat, edges: Seq<(int, int)>)
    ensures
        labels(n, edges).len() == n,
    decreases edges.len(),
{
    if edges.len() > 0 {
        lemma_labels_len(n, edges.drop_last());
    }
}

/// Merging along links gives the two ends of every link one label.
proof fn lemma_labels_respect(n: nat, edges: Seq<(int, int)>, k: int)
    requires
        0 <= k < edges.len(),
        0 <= edges[k].0 < n,
        0 <= edges[k].1 < n,
    ensures
        labels(n, edges)[edges[k].0] == labels(n, edges)[edges[k].1],
    decreases edges.len(),
{
    lemma_labels_len(n, edges.drop_last());
    if k < edges.len() - 1 {
        assert(edges.drop_last()[k] == edges[k]);
        lemma_labels_respect(n, edges.drop_last(), k);
    }
}

/// Groups by label: non-empty, members below `k` sharing their first
/// member's label, distinct labels across groups, every position below `k`
/// in some group.
spec fn groups_labelled(groups: Seq<Seq<usize>>, lab: Seq<int>, k: int) -> bool {
    &&& forall|g: int| 0 <= g < groups.len() ==> (#[trigger] groups[g]).len() > 0
    &&& forall|g: int, m: int|
        0 <= g < groups.len() && 0 <= m < groups[g].len() ==> (#[trigger] groups[g][m]) < k && lab[groups[g][m] as int]
            == lab[groups[g][0] as int]
    &&& forall|g: int, h: int| 0 <= g < h < groups.len() ==> lab[(#[trigger] groups[g])[0] as int] != lab[(#[trigger] groups[h])[0] as int]
    &&& forall|x: int| 0 <= x < k ==> #[trigger] in_some_group(groups, x)
}

/// Position `x` is a member of some group.
spec fn in_some_group(groups: Seq<Seq<usize>>, x: int) -> bool {
    exists|g: int| 0 <= g < groups.len() && (#[trigger] groups[g]).contains(x as usize)
}

proof fn lemma_find_group_found(groups: Seq<Seq<usize>>, lab: Seq<int>, label: int)
    ensures
        find_group(groups, lab, label) >= 0 ==> lab[groups[find_group(groups, lab, label)][0] as int] == label,
        find_group(groups, lab, label) < 0 ==> forall|g: int| 0 <= g < groups.len() ==> lab[(#[trigger] groups[g])[0] as int] != label,
    decreases groups.len(),
{
    lemma_find_group_range(groups, lab, label);
    if groups.len() > 0 && lab[groups.last()[0] as int] != label {
        let rest = groups.drop_last();
        lemma_find_group_found(rest, lab, label);
        lemma_find_group_range(rest, lab, label);
        let f = find_group(rest, lab, label);
        if f >= 0 {
            assert(groups[f] == rest[f]);
        }
        assert forall|g: int| 0 <= g < groups.len() - 1 implies groups[g] == rest[g] by {}
    }
}

proof fn lemma_groups_upto(lab: Seq<int>, k: int)
    requires
        0 <= k <= lab.len(),
        lab.len() <= usize::MAX,
    ensures
        groups_labelled(groups_upto(lab, k), lab, k),
    decreases k,
{
    if k > 0 {
        lemma_groups_upto(lab, k - 1);
        let prev = groups_upto(lab, k - 1);
        let x = (k - 1) as usize;
        let g = find_group(prev, lab, lab[k - 1]);
        lemma_find_group_range(prev, lab, lab[k - 1]);
        lemma_find_group_found(prev, lab, lab[k - 1]);
        let next = groups_upto(lab, k);
        if g >= 0 {
            assert(next == prev.update(g, prev[g].push(x)));
            assert forall|h: int, m: int|
                0 <= h < next.len() && 0 <= m < next[h].len() implies (#[trigger] next[h][m]) < k && lab[next[h][m] as int]
                    == lab[next[h][0] as int] by {
                if h == g && m == prev[g].len() {
                    assert(next[h][m] == x);
                    assert(next[h][0] == prev[g][0]);
                    assert(lab[prev[g][0] as int] == lab[k - 1]);
                } else if h == g {
                    assert(next[h][m] == prev[g][m]);
                    assert(next[h][0] == prev[g][0]);
                    assert(prev[g][m] < k - 1 && lab[prev[g][m] as int] == lab[prev[g][0] as int]);
                } else {
                    assert(next[h] == prev[h]);
                    assert(prev[h][m] < k - 1 && lab[prev[h][m] as int] == lab[prev[h][0] as int]);
                }
            }
            assert forall|a: int, b: int| 0 <= a < b < next.len() implies lab[(#[trigger] next[a])[0] as int] != lab[(#[trigger] next[b])[0] as int] by {
                assert(next[a][0] == prev[a][0]);
                assert(next[b][0] == prev[b][0]);
            }
            assert forall|y: int| 0 <= y < k implies #[trigger] in_some_group(next, y) by {
                if y == k - 1 {
                    assert(next[g][prev[g].len() as int] == x);
                    assert(next[g].contains(y as usize));
                } else {
                    assert(in_some_group(prev, y));
                    let h = choose|h: int| 0 <= h < prev.len() && (#[trigger] prev[h]).contains(y as usize);
                    let m = choose|m: int| 0 <= m < prev[h].len() && prev[h][m] == y as usize;
                    if h == g {
                        assert(next[h][m] == prev[h][m]);
                    } else {
                        assert(next[h] == prev[h]);
                    }
                    assert(next[h].contains(y as usize));
                }
            }
        } else {
            assert(next == prev.push(seq![x]));
            assert forall|h: int, m: int|
                0 <= h < next.len() && 0 <= m < next[h].len() implies (#[trigger] next[h][m]) < k && lab[next[h][m] as int]
                    == lab[next[h][0] as int] by {
                if h < prev.len() {
                    assert(next[h] == prev[h]);
                }
            }
            assert forall|a: int, b: int| 0 <= a < b < next.len() implies lab[(#[trigger] next[a])[0] as int] != lab[(#[trigger] next[b])[0] as int] by {
                assert(next[a] == prev[a]);
                if b < prev.len() {
                    assert(next[b] == prev[b]);
                } else {
                    assert(next[b][0] == x);
                    assert(next[b][0] as int == k - 1);
                    assert(lab[(prev[a])[0] as int] != lab[k - 1]);
                }
            }
            assert forall|y: int| 0 <= y < k implies #[trigger] in_some_group(next, y) by {
                if y == k - 1 {
                    assert(next[prev.len() as int][0] == x);
                    assert(next[prev.len() as int].contains(y as usize));
                } else {
                    assert(in_some_group(prev, y));
                    let h = choose|h: int| 0 <= h < prev.len() && (#[trigger] prev[h]).contains(y as usize);
                    assert(next[h] == prev[h]);
                }
            }
        }
    }
}

/// Positions with one label share a group.
proof fn lemma_same_label_same_group(lab: Seq<int>, x: int, y: int)
    requires
        lab.len() <= usize::MAX,
        0 <= x < lab.len(),
        0 <= y < lab.len(),
        lab[x] == lab[y],
    ensures
        same_group(groups_upto(lab, lab.len() as int), x, y),
{
    let groups = groups_upto(lab, lab.len() as int);
    lemma_groups_upto(lab, lab.len() as int);
    assert(in_some_group(groups, x));
    assert(in_some_group(groups, y));
    let gx = choose|g: int| 0 <= g < groups.len() && (#[trigger] groups[g]).contains(x as usize);
    let gy = choose|g: int| 0 <= g < groups.len() && (#[trigger] groups[g]).contains(y as usize);
    let mx = choose|m: int| 0 <= m < groups[gx].len() && groups[gx][m] == x as usize;
    let my = choose|m: int| 0 <= m < groups[gy].len() && groups[gy][m] == y as usize;
    assert(lab[groups[gx][mx] as int] == lab[groups[gx][0] as int]);
    assert(lab[groups[gy][my] as int] == lab[groups[gy][0] as int]);
    assert(groups[gx][mx] as int == x);
    assert(groups[gy][my] as int == y);
    if gx < gy {
        assert(lab[groups[gx][0] as int] != lab[groups[gy][0] as int]);
    } else if gy < gx {
        assert(lab[groups[gy][0] as int] != lab[groups[gx][0] as int]);
    }
    assert(gx == gy);
}

proof fn lemma_roots_upto_len(devs: Seq<UsbDevice>, k: int)
    requires
        0 <= k,
    ensures
        roots_upto(devs, k).len() <= k,
    decreases k,
{
    if k > 0 {
        lemma_roots_upto_len(devs, k - 1);
    }
}

/// The ends of one link among the root edges share a group.
proof fn lemma_edge_grouped(devs: Seq<UsbDevice>, pairs: Seq<(Seq<char>, Seq<char>)>, e: int)
    requires
        devs.len() <= usize::MAX,
        0 <= e < root_edges(devs, pairs).len(),
        0 <= root_edges(devs, pairs)[e].0 < roots_of(devs).len(),
        0 <= root_edges(devs, pairs)[e].1 < roots_of(devs).len(),
    ensures
        same_group(root_groups(devs, pairs), root_edges(devs, pairs)[e].0, root_edges(devs, pairs)[e].1),
{
    let n = roots_of(devs).len();
    lemma_roots_upto_len(devs, devs.len() as int);
    let edges = root_edges(devs, pairs);
    lemma_labels_respect(n, edges, e);
    lemma_labels_len(n, edges);
    lemma_same_label_same_group(labels(n, edges), edges[e].0, edges[e].1);
}

proof fn lemma_peer_edge_present(
    devs: Seq<UsbDevice>,
    roots: Seq<usize>,
    pairs: Seq<(Seq<char>, Seq<char>)>,
    p: int,
    a: Seq<char>,
    b: Seq<char>,
)
    requires
        0 <= p < pairs.len(),
        port_owner_spec(pairs[p].0) == Some(a),
        port_owner_spec(pairs[p].1) == Some(b),
        root_pos(devs, roots, a) >= 0,
        root_pos(devs, roots, b) >= 0,
    ensures
        exists|e: int| 0 <= e < peer_edges(devs, roots, pairs).len() && #[trigger] peer_edges(devs, roots, pairs)[e] == (
            root_pos(devs, roots, a),
            root_pos(devs, roots, b),
        ),
    decreases pairs.len(),
{
    let prev = peer_edges(devs, roots, pairs.drop_last());
    if p == pairs.len() - 1 {
        let cur = peer_edges(devs, roots, pairs);
        assert(cur[prev.len() as int] == (root_pos(devs, roots, a), root_pos(devs, roots, b)));
    } else {
        assert(pairs.drop_last()[p] == pairs[p]);
        lemma_peer_edge_present(devs, roots, pairs.drop_last(), p, a, b);
        let e = choose|e: int| 0 <= e < prev.len() && #[trigger] prev[e] == (
            root_pos(devs, roots, a),
            root_pos(devs, roots, b),
        );
        assert(peer_edges(devs, roots, pairs)[e] == prev[e]);
    }
}

proof fn lemma_first_found(devs: Seq<UsbDevice>, roots: Seq<usize>, s: Seq<char>, k: int, x: int)
    requires
        0 <= x < k,
        root_slot(devs, roots, x) == Some(s),
    ensures
        first_with_slot(devs, roots, s, k) >= 0,
    decreases k,
{
    if x < k - 1 {
        lemma_first_found(devs, roots, s, k - 1, x);
    }
}

proof fn lemma_slot_edge_present(devs: Seq<UsbDevice>, roots: Seq<usize>, s: Seq<char>, k: int, x: int)
    requires
        0 <= x < k,
        root_slot(devs, roots, x) == Some(s),
        first_with_slot(devs, roots, s, x) >= 0,
    ensures
        exists|e: int| 0 <= e < slot_edges(devs, roots, k).len() && #[trigger] slot_edges(devs, roots, k)[e] == (
            first_with_slot(devs, roots, s, x),
            x,
        ),
    decreases k,
{
    let prev = slot_edges(devs, roots, k - 1);
    if x == k - 1 {
        assert(slot_edges(devs, roots, k)[prev.len() as int] == (first_with_slot(devs, roots, s, x), x));
    } else {
        lemma_slot_edge_present(devs, roots, s, k - 1, x);
        let e = choose|e: int| 0 <= e < prev.len() && #[trigger] prev[e] == (first_with_slot(devs, roots, s, x), x);
        assert(slot_edges(devs, roots, k)[e] == prev[e]);
    }
}

/// A root hub with PCI slot `s` shares a group with the first root hub
/// that has `s`.
proof fn lemma_grouped_with_first(devs: Seq<UsbDevice>, pairs: Seq<(Seq<char>, Seq<char>)>, s: Seq<char>, x: int)
    requires
        devs.len() <= usize::MAX,
        0 <= x < roots_of(devs).len(),
        root_slot(devs, roots_of(devs), x) == Some(s),
    ensures
        0 <= first_with_slot(devs, roots_of(devs), s, roots_of(devs).len() as int) < roots_of(devs).len(),
        same_group(root_groups(devs, pairs), first_with_slot(devs, roots_of(devs), s, roots_of(devs).len() as int), x),
{
    let roots = roots_of(devs);
    let n = roots.len() as int;
    lemma_first_found(devs, roots, s, n, x);
    lemma_first_with_slot_range(devs, roots, s, n);
    let first = first_with_slot(devs, roots, s, n);
    lemma_first_with_slot_range(devs, roots, s, x);
    if first_with_slot(devs, roots, s, x) >= 0 {
        lemma_first_stays(devs, roots, s, x, n);
        lemma_slot_edge_present(devs, roots, s, n, x);
        let pe = peer_edges(devs, roots, pairs);
        let se = slot_edges(devs, roots, n);
        let e = choose|e: int| 0 <= e < se.len() && #[trigger] se[e] == (first_with_slot(devs, roots, s, x), x);
        let edges = root_edges(devs, pairs);
        assert(edges[pe.len() + e] == se[e]);
        lemma_edge_grouped(devs, pairs, pe.len() + e);
    } else {
        assert(first_with_slot(devs, roots, s, x + 1) == x);
        lemma_first_stays(devs, roots, s, x + 1, n);
        lemma_roots_upto_len(devs, devs.len() as int);
        lemma_labels_len(n as nat, root_edges(devs, pairs));
        lemma_same_label_same_group(labels(n as nat, root_edges(devs, pairs)), x, x);
    }
}

/// Root hubs that share a PCI slot belong to one group.
proof fn lemma_shared_slot_grouped(devs: Seq<UsbDevice>, pairs: Seq<(Seq<char>, Seq<char>)>, i: int, j: int)
    requires
        devs.len() <= usize::MAX,
        0 <= i < roots_of(devs).len(),
        0 <= j < roots_of(devs).len(),
        root_slot(devs, roots_of(devs), i) is Some,
        root_slot(devs, roots_of(devs), i) == root_slot(devs, roots_of(devs), j),
    ensures
        same_group(root_groups(devs, pairs), i, j),
{
    let roots = roots_of(devs);
    let n = roots.len() as int;
    let s = root_slot(devs, roots, i)->0;
    lemma_grouped_with_first(devs, pairs, s, i);
    lemma_grouped_with_first(devs, pairs, s, j);
    let first = first_with_slot(devs, roots, s, n);
    let groups = root_groups(devs, pairs);
    let edges = root_edges(devs, pairs);
    lemma_roots_upto_len(devs, devs.len() as int);
    lemma_labels_len(n as nat, edges);
    lemma_groups_upto(labels(n as nat, edges), n);
    let gi = choose|g: int| 0 <= g < groups.len() && (#[trigger] groups[g]).contains(first as usize) && groups[g].contains(i as usize);
    let gj = choose|g: int| 0 <= g < groups.len() && (#[trigger] groups[g]).contains(first as usize) && groups[g].contains(j as usize);
    lemma_group_of_member(groups, labels(n as nat, edges), n, gi, gj, first);
    assert(groups[gi].contains(j as usize));
}

proof fn lemma_group_of_member(groups: Seq<Seq<usize>>, lab: Seq<int>, k: int, g: int, h: int, x: int)
    requires
        groups_labelled(groups, lab, k),
        0 <= g < groups.len(),
        0 <= h < groups.len(),
        groups[g].contains(x as usize),
        groups[h].contains(x as usize),
    ensures
        g == h,
{
    let mg = choose|m: int| 0 <= m < groups[g].len() && groups[g][m] == x as usize;
    let mh = choose|m: int| 0 <= m < groups[h].len() && groups[h][m] == x as usize;
    assert(lab[groups[g][mg] as int] == lab[groups[g][0] as int]);
    assert(lab[groups[h][mh] as int] == lab[groups[h][0] as int]);
    if g < h {
        assert(lab[groups[g][0] as int] != lab[groups[h][0] as int]);
    } else if h < g {
        assert(lab[groups[h][0] as int] != lab[groups[g][0] as int]);
    }
}

/// Root hubs linked by a peered port pair belong to one group.
proof fn lemma_peered_roots_grouped(
    devs: Seq<UsbDevice>,
    pairs: Seq<(Seq<char>, Seq<char>)>,
    p: int,
    a: Seq<char>,
    b: Seq<char>,
)
    requires
        devs.len() <= usize::MAX,
        0 <= p < pairs.len(),
        port_owner_spec(pairs[p].0) == Some(a),
        port_owner_spec(pairs[p].1) == Some(b),
        root_pos(devs, roots_of(devs), a) >= 0,
        root_pos(devs, roots_of(devs), b) >= 0,
    ensures
        same_group(root_groups(devs, pairs), root_pos(devs, roots_of(devs), a), root_pos(devs, roots_of(devs), b)),
{
    let roots = roots_of(devs);
    lemma_peer_edge_present(devs, roots, pairs, p, a, b);
    lemma_root_pos_range(devs, roots, a);
    lemma_root_pos_range(devs, roots, b);
    let pe = peer_edges(devs, roots, pairs);
    let e = choose|e: int| 0 <= e < pe.len() && #[trigger] pe[e] == (root_pos(devs, roots, a), root_pos(devs, roots, b));
    let edges = root_edges(devs, pairs);
    assert(edges[e] == pe[e]);
    lemma_edge_grouped(devs, pairs, e);
}


proof fn lemma_groups_upto_len(lab: Seq<int>, k: int)
    requires
        0 <= k,
    ensures
        groups_upto(lab, k).len() <= k,
    decreases k,
{
    if k > 0 {
        lemma_groups_upto_len(lab, k - 1);
        lemma_find_group_range(groups_upto(lab, k - 1), lab, lab[k - 1]);
    }
}

/// A sequence sorted by key holds each item of the input.
proof fn lemma_sorted_holds<T>(s: Seq<(u64, T)>, i: int)
    requires
        0 <= i < s.len(),
    ensures
        exists|q: int| 0 <= q < sorted_by_key(s).len() && #[trigger] sorted_by_key(s)[q] == s[i],
{
    broadcast use vstd::seq_lib::group_to_multiset_ensures;

    crate::sort::lemma_sorted_by_key_sorted(s);
    assert(s.contains(s[i]));
    assert(s.to_multiset().count(s[i]) > 0);
    assert(sorted_by_key(s).to_multiset().count(s[i]) > 0);
    assert(sorted_by_key(s).contains(s[i]));
}

/// The root hubs of one group are shown together, as one controller.
proof fn lemma_group_is_one_controller(
    devs: Seq<UsbDevice>,
    pm: Map<Seq<char>, Seq<char>>,
    pairs: Seq<(Seq<char>, Seq<char>)>,
    i: int,
    j: int,
)
    requires
        devs.len() <= usize::MAX,
        0 <= i < roots_of(devs).len(),
        0 <= j < roots_of(devs).len(),
        same_group(root_groups(devs, pairs), i, j),
    ensures
        exists|m: int|
            0 <= m < topology_spec(devs, pm, pairs).len() && (#[trigger] topology_spec(devs, pm, pairs)[m]).roots.contains(
                roots_of(devs)[i],
            ) && topology_spec(devs, pm, pairs)[m].roots.contains(roots_of(devs)[j]),
{
    let roots = roots_of(devs);
    let n = roots.len() as int;
    lemma_roots_upto_len(devs, devs.len() as int);
    let edges = root_edges(devs, pairs);
    let lab = labels(n as nat, edges);
    let gs = root_groups(devs, pairs);
    lemma_groups_upto_len(lab, n);
    let g = choose|g: int| 0 <= g < gs.len() && (#[trigger] gs[g]).contains(i as usize) && gs[g].contains(j as usize);
    let members = gs[g].map_values(|p: usize| roots[p as int]);
    let sk = speed_keyed(devs, members);
    let sorted = by_speed_desc(devs, members);
    assert(sorted == sorted_by_key(sk).map_values(|p: (u64, usize)| p.1));
    crate::sort::lemma_sorted_elements(sk);
    let mi = choose|m: int| 0 <= m < gs[g].len() && gs[g][m] == i as usize;
    let mj = choose|m: int| 0 <= m < gs[g].len() && gs[g][m] == j as usize;
    assert(members[mi] == roots[i]);
    assert(members[mj] == roots[j]);
    lemma_sorted_holds(sk, mi);
    lemma_sorted_holds(sk, mj);
    let qi = choose|q: int| 0 <= q < sorted_by_key(sk).len() && #[trigger] sorted_by_key(sk)[q] == sk[mi];
    let qj = choose|q: int| 0 <= q < sorted_by_key(sk).len() && #[trigger] sorted_by_key(sk)[q] == sk[mj];
    assert(sorted[qi] == roots[i]);
    assert(sorted[qj] == roots[j]);
    let ctrls = Seq::new(gs.len(), |h: int| ctrl_spec(devs, pm, gs[h]));
    assert(ctrls[g].roots == sorted);
    let src = Seq::new(gs.len(), |h: int| (min_bus(devs, ctrls[h].roots), h as usize));
    let order = sorted_by_key(src).map_values(|p: (u64, usize)| p.1);
    crate::sort::lemma_sorted_elements(src);
    lemma_sorted_holds(src, g);
    let m = choose|q: int| 0 <= q < sorted_by_key(src).len() && #[trigger] sorted_by_key(src)[q] == src[g];
    assert(order[m] == g as usize);
    let t = topology_spec(devs, pm, pairs);
    assert(t[m] == ctrls[g]);
    assert(t[m].roots.contains(roots[i]));
    assert(t[m].roots.contains(roots[j]));
}

/// Companion buses are merged: root hubs that share a PCI slot are shown
/// as one controller.
pub proof fn lemma_shared_slot_one_controller(
    devs: Seq<UsbDevice>,
    pm: Map<Seq<char>, Seq<char>>,
    pairs: Seq<(Seq<char>, Seq<char>)>,
    i: int,
    j: int,
)
    requires
        devs.len() <= usize::MAX,
        0 <= i < roots_of(devs).len(),
        0 <= j < roots_of(devs).len(),
        root_slot(devs, roots_of(devs), i) is Some,
        root_slot(devs, roots_of(devs), i) == root_slot(devs, roots_of(devs), j),
    ensures
        exists|m: int|
            0 <= m < topology_spec(devs, pm, pairs).len() && (#[trigger] topology_spec(devs, pm, pairs)[m]).roots.contains(
                roots_of(devs)[i],
            ) && topology_spec(devs, pm, pairs)[m].roots.contains(roots_of(devs)[j]),
{
    lemma_shared_slot_grouped(devs, pairs, i, j);
    lemma_group_is_one_controller(devs, pm, pairs, i, j);
}

/// Companion buses are merged: the root hubs that own the two ports of a
/// peered pair (the pair at `p`, its ports owned by the root hubs called
/// `a` and `b`) are shown as one controller.
pub proof fn lemma_peered_one_controller(
    devs: Seq<UsbDevice>,
    pm: Map<Seq<char>, Seq<char>>,
    pairs: Seq<(Seq<char>, Seq<char>)>,
    p: int,
    a: Seq<char>,
    b: Seq<char>,
)
    requires
        devs.len() <= usize::MAX,
        0 <= p < pairs.len(),
        port_owner_spec(pairs[p].0) == Some(a),
        port_owner_spec(pairs[p].1) == Some(b),
        root_pos(devs, roots_of(devs), a) >= 0,
        root_pos(devs, roots_of(devs), b) >= 0,
    ensures
        exists|m: int|
            0 <= m < topology_spec(devs, pm, pairs).len() && (#[trigger] topology_spec(devs, pm, pairs)[m]).roots.contains(
                roots_of(devs)[root_pos(devs, roots_of(devs), a)],
            ) && topology_spec(devs, pm, pairs)[m].roots.contains(roots_of(devs)[root_pos(devs, roots_of(devs), b)]),
{
    let roots = roots_of(devs);
    lemma_root_pos_range(devs, roots, a);
    lemma_root_pos_range(devs, roots, b);
    lemma_peered_roots_grouped(devs, pairs, p, a, b);
    lemma_group_is_one_controller(devs, pm, pairs, root_pos(devs, roots, a), root_pos(devs, roots, b));
}


/// Every item of a sequence sorted by key is an item of the input.
proof fn lemma_sorted_member<T>(s: Seq<(u64, T)>, q: int)
    requires
        0 <= q < sorted_by_key(s).len(),
    ensures
        exists|i: int| 0 <= i < s.len() && #[trigger] s[i] == sorted_by_key(s)[q],
{
    crate::sort::lemma_sorted_elements(s);
    assert(s.contains(sorted_by_key(s)[q]));
}

/// Devices sorted fastest first really come in descending speed.
proof fn lemma_by_speed_desc(devs: Seq<UsbDevice>, s: Seq<usize>)
    ensures
        forall|i: int, j: int|
            0 <= i < j < by_speed_desc(devs, s).len() ==> devs[by_speed_desc(devs, s)[i] as int].speed >= devs[by_speed_desc(
                devs,
                s,
            )[j] as int].speed,
{
    let sk = speed_keyed(devs, s);
    let sorted = sorted_by_key(sk);
    crate::sort::lemma_sorted_by_key_sorted(sk);
    crate::sort::lemma_sorted_elements(sk);
    let r = by_speed_desc(devs, s);
    assert forall|q: int| 0 <= q < sorted.len() implies (#[trigger] sorted[q]).0 == (u64::MAX - devs[sorted[q].1 as int].speed) as u64 by {
        lemma_sorted_member(sk, q);
        let i = choose|i: int| 0 <= i < sk.len() && #[trigger] sk[i] == sorted[q];
        assert(sk[i] == ((u64::MAX - devs[s[i] as int].speed) as u64, s[i]));
    }
    assert forall|i: int, j: int| 0 <= i < j < r.len() implies devs[r[i] as int].speed >= devs[r[j] as int].speed by {
        assert(r[i] == sorted[i].1 && r[j] == sorted[j].1);
        assert(sorted[i].0 <= sorted[j].0);
        assert(sorted[i].0 == (u64::MAX - devs[sorted[i].1 as int].speed) as u64);
        assert(sorted[j].0 == (u64::MAX - devs[sorted[j].1 as int].speed) as u64);
    }
}

/// Each controller lists its root hubs fastest first (its bus label shows
/// the faster bus first), and the controllers come in order of their
/// lowest bus number.
pub proof fn lemma_controller_order(
    devs: Seq<UsbDevice>,
    pm: Map<Seq<char>, Seq<char>>,
    pairs: Seq<(Seq<char>, Seq<char>)>,
)
    requires
        devs.len() <= usize::MAX,
    ensures
        forall|m: int, i: int, j: int|
            0 <= m < topology_spec(devs, pm, pairs).len() && 0 <= i < j < topology_spec(devs, pm, pairs)[m].roots.len()
                ==> devs[topology_spec(devs, pm, pairs)[m].roots[i] as int].speed >= devs[topology_spec(
                devs,
                pm,
                pairs,
            )[m].roots[j] as int].speed,
        forall|m1: int, m2: int|
            0 <= m1 < m2 < topology_spec(devs, pm, pairs).len() ==> min_bus(devs, topology_spec(devs, pm, pairs)[m1].roots)
                <= min_bus(devs, topology_spec(devs, pm, pairs)[m2].roots),
{
    let gs = root_groups(devs, pairs);
    let roots = roots_of(devs);
    let ctrls = Seq::new(gs.len(), |h: int| ctrl_spec(devs, pm, gs[h]));
    let src = Seq::new(gs.len(), |h: int| (min_bus(devs, ctrls[h].roots), h as usize));
    let sorted = sorted_by_key(src);
    let t = topology_spec(devs, pm, pairs);
    lemma_roots_upto_len(devs, devs.len() as int);
    lemma_groups_upto_len(labels(roots.len(), root_edges(devs, pairs)), roots.len() as int);
    assert(gs.len() <= usize::MAX);
    crate::sort::lemma_sorted_by_key_sorted(src);
    crate::sort::lemma_sorted_elements(src);
    assert forall|q: int| 0 <= q < sorted.len() implies (#[trigger] sorted[q]).0 == min_bus(devs, ctrls[sorted[q].1 as int].roots) by {
        lemma_sorted_member(src, q);
        let h = choose|h: int| 0 <= h < src.len() && #[trigger] src[h] == sorted[q];
        assert(src[h] == (min_bus(devs, ctrls[h].roots), h as usize));
        assert(h as usize as int == h);
    }
    assert forall|m: int| 0 <= m < t.len() implies #[trigger] t[m] == ctrls[sorted[m].1 as int] by {}
    assert forall|m: int, i: int, j: int|
        0 <= m < t.len() && 0 <= i < j < t[m].roots.len() implies devs[t[m].roots[i] as int].speed >= devs[t[m].roots[j] as int].speed by {
        let g = sorted[m].1 as int;
        assert(t[m] == ctrls[g]);
        let members = gs[g].map_values(|p: usize| roots[p as int]);
        lemma_by_speed_desc(devs, members);
        assert(ctrls[g].roots == by_speed_desc(devs, members));
    }
    assert forall|m1: int, m2: int| 0 <= m1 < m2 < t.len() implies min_bus(devs, t[m1].roots) <= min_bus(devs, t[m2].roots) by {
        assert(t[m1] == ctrls[sorted[m1].1 as int]);
        assert(t[m2] == ctrls[sorted[m2].1 as int]);
        assert(sorted[m1].0 <= sorted[m2].0);
    }
}


// ---------------------------------------------------------------------------
// Filtering keeps every device that passes
// ---------------------------------------------------------------------------

/// The devices of a forest, each node before the nodes below it.
pub open spec fn forest_devices(ts: Seq<TreeView>) -> Seq<UsbDevice>
    decreases ts,
{
    if ts.len() == 0 {
        seq![]
    } else {
        let last = ts[ts.len() - 1];
        proof {
            assert(decreases_to!(ts => last));
        }
        forest_devices(ts.subrange(0, ts.len() - 1)) + tree_devices(last)
    }
}

/// The devices of a tree, its root first.
pub open spec fn tree_devices(t: TreeView) -> Seq<UsbDevice>
    decreases t,
{
    seq![t.device] + forest_devices(t.children)
}

proof fn lemma_forest_concat(a: Seq<TreeView>, b: Seq<TreeView>)
    ensures
        forest_devices(a + b) == forest_devices(a) + forest_devices(b),
    decreases b.len(),
{
    if b.len() == 0 {
        assert(a + b =~= a);
        assert(forest_devices(a) + forest_devices(b) =~= forest_devices(a));
    } else {
        let ab = a + b;
        let init = b.subrange(0, b.len() - 1);
        lemma_forest_concat(a, init);
        assert(ab.subrange(0, ab.len() - 1) =~= a + init);
        assert(ab[ab.len() - 1] == b[b.len() - 1]);
        assert(forest_devices(a) + (forest_devices(init) + tree_devices(b[b.len() - 1])) =~= (forest_devices(a)
            + forest_devices(init)) + tree_devices(b[b.len() - 1]));
    }
}

proof fn lemma_prune_tree_keeps(t: TreeView, keep: spec_fn(UsbDevice) -> bool)
    ensures
        forest_devices(prune_tree(t, keep)).filter(keep) == tree_devices(t).filter(keep),
    decreases t, 1nat,
{
    broadcast use vstd::seq_lib::group_filter_ensures;

    let c = prune_trees(t.children, keep);
    lemma_prune_forest_keeps(t.children, keep);
    let head: Seq<UsbDevice> = seq![t.device];
    Seq::filter_distributes_over_add(head, forest_devices(t.children), keep);
    assert(head.filter(keep) == (if keep(t.device) { head } else { Seq::<UsbDevice>::empty() })) by {
        reveal_with_fuel(Seq::filter, 2);
        assert(head.drop_last() =~= Seq::<UsbDevice>::empty());
    }
    if keep(t.device) || c.len() > 0 {
        let kept = TreeView { children: c, ..t };
        let single: Seq<TreeView> = seq![kept];
        assert(single.subrange(0, 0) =~= Seq::<TreeView>::empty());
        assert(forest_devices(Seq::<TreeView>::empty()) == Seq::<UsbDevice>::empty());
        assert(single[0] == kept);
        assert(forest_devices(single) == forest_devices(single.subrange(0, 0)) + tree_devices(kept));
        assert(forest_devices(single) =~= tree_devices(kept));
        Seq::filter_distributes_over_add(head, forest_devices(c), keep);
    } else {
        assert(c =~= Seq::<TreeView>::empty());
        assert(forest_devices(c) =~= Seq::<UsbDevice>::empty());
        assert(prune_tree(t, keep) =~= Seq::<TreeView>::empty());
        assert(Seq::<UsbDevice>::empty().filter(keep) =~= Seq::<UsbDevice>::empty()) by {
            reveal_with_fuel(Seq::filter, 1);
        }
        assert(tree_devices(t).filter(keep) =~= Seq::<UsbDevice>::empty() + forest_devices(c).filter(keep));
    }
}

proof fn lemma_prune_forest_keeps(ts: Seq<TreeView>, keep: spec_fn(UsbDevice) -> bool)
    ensures
        forest_devices(prune_trees(ts, keep)).filter(keep) == forest_devices(ts).filter(keep),
    decreases ts, 0nat,
{
    if ts.len() > 0 {
        let last = ts[ts.len() - 1];
        let init = ts.subrange(0, ts.len() - 1);
        assert(decreases_to!(ts => last));
        lemma_prune_forest_keeps(init, keep);
        lemma_prune_tree_keeps(last, keep);
        lemma_forest_concat(prune_trees(init, keep), prune_tree(last, keep));
        Seq::filter_distributes_over_add(forest_devices(prune_trees(init, keep)), forest_devices(prune_tree(last, keep)), keep);
        Seq::filter_distributes_over_add(forest_devices(init), tree_devices(last), keep);
    }
}

/// Filtering the tree loses no match: the devices of the pruned tree that
/// pass the filter are exactly those of the whole tree, in the same order.
/// Only devices that fail it are dropped, or kept as the way to a match.
pub proof fn lemma_prune_keeps_passing(ts: Seq<TreeView>, keep: spec_fn(UsbDevice) -> bool)
    ensures
        forest_devices(prune_trees(ts, keep)).filter(keep) == forest_devices(ts).filter(keep),
{
    lemma_prune_forest_keeps(ts, keep);
}

} // verus!
