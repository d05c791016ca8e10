//! Choosing what a listing shows: the flat device list and the filtered
//! controller tree.
use vstd::prelude::*;

use crate::device::{is_root_hub_spec, parsed_u16s, UsbDevice};
use crate::query::{device_filter_spec, DeviceFilter};
use crate::text::split_spec;
use crate::topology::{filter_physical_tree, lemma_trees_view_len, prune_trees, trees_view, PhysicalController, TreeView};

verus! {

/// The devpath of a device as numbers.
pub open spec fn segments_spec(d: UsbDevice) -> Seq<u16> {
    parsed_u16s(split_spec(d.devpath@, '.'))
}

/// Lexicographic order on number sequences, a prefix first.
pub open spec fn segs_le(a: Seq<u16>, b: Seq<u16>) -> bool
    decreases a.len(),
{
    if a.len() == 0 {
        true
    } else if b.len() == 0 {
        false
    } else if a[0] != b[0] {
        a[0] < b[0]
    } else {
        segs_le(a.drop_first(), b.drop_first())
    }
}

/// List order: by bus, then by devpath numerically (port 10 after port 2).
pub open spec fn list_le(a: (u8, Seq<u16>), b: (u8, Seq<u16>)) -> bool {
    a.0 < b.0 || (a.0 == b.0 && segs_le(a.1, b.1))
}

/// `x` inserted after every item not greater than it.
pub open spec fn insert_listed(s: Seq<(u8, Seq<u16>, UsbDevice)>, x: (u8, Seq<u16>, UsbDevice)) -> Seq<
    (u8, Seq<u16>, UsbDevice),
>
    decreases s.len(),
{
    if s.len() == 0 {
        seq![x]
    } else if list_le((s.last().0, s.last().1), (x.0, x.1)) {
        s.push(x)
    } else {
        insert_listed(s.drop_last(), x).push(s.last())
    }
}

/// Devices with their keys, stably sorted into list order.
pub open spec fn sort_listed(s: Seq<(u8, Seq<u16>, UsbDevice)>) -> Seq<(u8, Seq<u16>, UsbDevice)>
    decreases s.len(),
{
    if s.len() == 0 {
        seq![]
    } else {
        insert_listed(sort_listed(s.drop_last()), s.last())
    }
}

/// Whether the flat list shows a device: it passes the filters and sits on
/// the chosen bus; root hubs are shown only when a device filter or a search
/// query is given (a bare bus choice does not reveal them).
pub open spec fn listed(f: DeviceFilter, bus: Option<u8>, d: UsbDevice) -> bool {
    let device_filtering = f.id is Some || f.query is Some;
    &&& device_filter_spec(f, d)
    &&& (bus matches Some(b) ==> d.bus == b)
    &&& (device_filtering || !is_root_hub_spec(d))
}

/// The flat list: the shown devices in list order.
pub open spec fn list_spec(devs: Seq<UsbDevice>, f: DeviceFilter, bus: Option<u8>) -> Seq<UsbDevice> {
    sort_listed(
        devs.filter(|d: UsbDevice| listed(f, bus, d)).map_values(
            |d: UsbDevice| (d.bus, segments_spec(d), d),
        ),
    ).map_values(|t: (u8, Seq<u16>, UsbDevice)| t.2)
}

fn segs_le_exec(a: &Vec<u16>, b: &Vec<u16>) -> (r: bool)
    ensures
        r == segs_le(a@, b@),
{
    let mut i: usize = 0;
    assert(a@.skip(0) =~= a@);
    assert(b@.skip(0) =~= b@);
    loop
        invariant
            i <= a@.len(),
            i <= b@.len(),
            segs_le(a@, b@) == segs_le(a@.skip(i as int), b@.skip(i as int)),
        decreases a@.len() - i,
    {
        if i == a.len() {
            return true;
        }
        if i == b.len() {
            return false;
        }
        proof {
            assert(a@.skip(i as int)[0] == a@[i as int]);
            assert(b@.skip(i as int)[0] == b@[i as int]);
            assert(a@.skip(i as int).drop_first() =~= a@.skip(i + 1));
            assert(b@.skip(i as int).drop_first() =~= b@.skip(i + 1));
        }
        if a[i] != b[i] {
            return a[i] < b[i];
        }
        i = i + 1;
    }
}

/// The plain values of keyed devices.
pub open spec fn keyed_views(s: Seq<(u8, Vec<u16>, UsbDevice)>) -> Seq<(u8, Seq<u16>, UsbDevice)> {
    s.map_values(|t: (u8, Vec<u16>, UsbDevice)| (t.0, t.1@, t.2))
}

proof fn lemma_insert_listed_at(s: Seq<(u8, Seq<u16>, UsbDevice)>, x: (u8, Seq<u16>, UsbDevice), p: int)
    requires
        0 <= p <= s.len(),
        forall|j: int| p <= j < s.len() ==> !list_le((s[j].0, s[j].1), (x.0, x.1)),
        p == 0 || list_le((s[p - 1].0, s[p - 1].1), (x.0, x.1)),
    ensures
        insert_listed(s, x) == s.insert(p, x),
    decreases s.len(),
{
    if s.len() == 0 {
        assert(s.insert(p, x) =~= seq![x]);
    } else if p == s.len() {
        assert(s.insert(p, x) =~= s.push(x));
    } else {
        lemma_insert_listed_at(s.drop_last(), x, p);
        assert(s.drop_last().insert(p, x).push(s.last()) =~= s.insert(p, x));
    }
}

/// The devices the flat list shows, in list order: filtered by `filter`
/// and `bus`, root hubs hidden unless a device filter or search query is
/// given, sorted by bus and then
/// numerically by devpath.
pub fn list_devices(devices: Vec<UsbDevice>, filter: &DeviceFilter, bus: Option<u8>) -> (r: Vec<
    UsbDevice,
>)
    ensures
        r@ == list_spec(devices@, *filter, bus),
{
    let filtering = filter.is_active();
    let ghost keep = |d: UsbDevice| listed(*filter, bus, d);
    let ghost orig = devices@;
    let mut rest = devices;
    let mut out: Vec<(u8, Vec<u16>, UsbDevice)> = Vec::new();
    let ghost mut done: int = 0;
    assert(orig.take(0) =~= Seq::<UsbDevice>::empty());
    assert(orig.take(0).filter(keep) =~= Seq::<UsbDevice>::empty()) by {
        reveal_with_fuel(Seq::filter, 1);
    }
    while rest.len() > 0
        invariant
            0 <= done <= orig.len(),
            rest@ == orig.skip(done),
            filtering == (filter.id is Some || filter.query is Some),
            keep == (|d: UsbDevice| listed(*filter, bus, d)),
            keyed_views(out@) == sort_listed(
                orig.take(done).filter(keep).map_values(
                    |d: UsbDevice| (d.bus, segments_spec(d), d),
                ),
            ),
        decreases rest@.len(),
    {
        let d = rest.remove(0);
        proof {
            assert(d == orig[done]);
            assert(rest@ =~= orig.skip(done + 1));
            assert(orig.take(done + 1).drop_last() =~= orig.take(done));
            reveal_with_fuel(Seq::filter, 1);
        }
        let ghost prev_in = orig.take(done).filter(keep).map_values(
            |d: UsbDevice| (d.bus, segments_spec(d), d),
        );
        let shown = filter.matches(&d) && match bus {
            Some(b) => d.bus == b,
            None => true,
        } && (filtering || !d.is_root_hub());
        if shown {
            let segs = d.devpath_segments();
            let x = (d.bus, segs, d);
            let mut p = out.len();
            while p > 0 && !(out[p - 1].0 < x.0 || (out[p - 1].0 == x.0 && segs_le_exec(
                &out[p - 1].1,
                &x.1,
            )))
                invariant
                    p <= out@.len(),
                    forall|j: int|
                        p <= j < out@.len() ==> !list_le(
                            (keyed_views(out@)[j].0, keyed_views(out@)[j].1),
                            (x.0, x.1@),
                        ),
                decreases p,
            {
                p = p - 1;
            }
            proof {
                let xv = (x.0, x.1@, x.2);
                lemma_insert_listed_at(keyed_views(out@), xv, p as int);
                assert(orig.take(done + 1).filter(keep) == orig.take(done).filter(keep).push(orig[done]));
                assert(orig.take(done + 1).filter(keep).map_values(
                    |d: UsbDevice| (d.bus, segments_spec(d), d),
                ) =~= prev_in.push(xv));
                assert(prev_in.push(xv).drop_last() =~= prev_in);
            }
            let ghost before = keyed_views(out@);
            out.insert(p, x);
            proof {
                assert(keyed_views(out@) =~= before.insert(p as int, (x.0, x.1@, x.2)));
            }
        } else {
            proof {
                assert(orig.take(done + 1).filter(keep) == orig.take(done).filter(keep));
            }
        }
        proof {
            done = done + 1;
        }
    }
    proof {
        assert(orig.take(done) =~= orig);
    }
    let ghost sorted = keyed_views(out@);
    let mut r: Vec<UsbDevice> = Vec::new();
    let mut rest2 = out;
    let ghost mut taken: int = 0;
    while rest2.len() > 0
        invariant
            0 <= taken <= sorted.len(),
            keyed_views(rest2@) == sorted.skip(taken),
            r@ == sorted.take(taken).map_values(|t: (u8, Seq<u16>, UsbDevice)| t.2),
        decreases rest2@.len(),
    {
        let ghost r2 = rest2@;
        assert(keyed_views(r2).len() == r2.len());
        assert(taken < sorted.len());
        let t = rest2.remove(0);
        proof {
            assert(r2[0] == t);
            assert(keyed_views(r2)[0] == (t.0, t.1@, t.2));
            assert(sorted.skip(taken)[0] == sorted[taken]);
            assert(rest2@ =~= r2.skip(1));
            assert(keyed_views(rest2@) =~= keyed_views(r2).skip(1));
            assert(keyed_views(rest2@) =~= sorted.skip(taken + 1));
            assert(sorted.take(taken + 1).map_values(|t: (u8, Seq<u16>, UsbDevice)| t.2) =~= sorted.take(
                taken,
            ).map_values(|t: (u8, Seq<u16>, UsbDevice)| t.2).push(t.2));
            taken = taken + 1;
        }
        r.push(t.2);
    }
    proof {
        assert(sorted.take(taken) =~= sorted);
    }
    r
}


/// A controller by value: its root hubs, speed, slot and tree.
pub struct CtrlView {
    pub roots: Seq<UsbDevice>,
    pub max_speed: u64,
    pub pci_slot: Option<Seq<char>>,
    pub children: Seq<TreeView>,
}

/// The value of an exec controller.
pub open spec fn ctrl_view(c: PhysicalController) -> CtrlView {
    CtrlView {
        roots: c.root_hubs@.map_values(|r: &UsbDevice| *r),
        max_speed: c.max_speed,
        pci_slot: crate::device::opt_view(c.pci_slot),
        children: trees_view(c.children@),
    }
}

/// The values of exec controllers.
pub open spec fn ctrl_views(cs: Seq<PhysicalController>) -> Seq<CtrlView> {
    cs.map_values(|c: PhysicalController| ctrl_view(c))
}

/// A controller sits on the chosen bus when one of its root hubs does.
pub open spec fn on_bus(c: CtrlView, bus: Option<u8>) -> bool {
    bus matches Some(b) ==> exists|i: int| 0 <= i < c.roots.len() && (#[trigger] c.roots[i]).bus == b
}

/// The tree listing: controllers on the chosen bus; when a device filter
/// is set, each tree is pruned to the branches holding a passing device
/// and controllers left without any are dropped.
pub open spec fn select_spec(cs: Seq<CtrlView>, f: DeviceFilter, bus: Option<u8>) -> Seq<CtrlView>
    decreases cs.len(),
{
    if cs.len() == 0 {
        seq![]
    } else {
        let prev = select_spec(cs.drop_last(), f, bus);
        let c = cs.last();
        if !on_bus(c, bus) {
            prev
        } else if !(f.id is Some || f.query is Some) {
            prev.push(c)
        } else {
            let kids = prune_trees(c.children, |d: UsbDevice| device_filter_spec(f, d));
            if kids.len() > 0 {
                prev.push(CtrlView { children: kids, ..c })
            } else {
                prev
            }
        }
    }
}

fn has_root_on_bus(c: &PhysicalController, b: u8) -> (r: bool)
    ensures
        r == on_bus(ctrl_view(*c), Some(b)),
{
    let ghost roots = ctrl_view(*c).roots;
    let mut i: usize = 0;
    while i < c.root_hubs.len()
        invariant
            i <= c.root_hubs@.len(),
            roots == c.root_hubs@.map_values(|r: &UsbDevice| *r),
            forall|j: int| 0 <= j < i ==> (#[trigger] roots[j]).bus != b,
        decreases c.root_hubs@.len() - i,
    {
        if c.root_hubs[i].bus == b {
            assert(roots[i as int].bus == b);
            return true;
        }
        i = i + 1;
    }
    false
}

/// The controllers the tree listing shows: those with a root hub on `bus`
/// when one is chosen; with a device filter set, their trees pruned to the
/// branches that hold a passing device, and controllers left empty dropped.
pub fn select_controllers<'a>(
    controllers: Vec<PhysicalController<'a>>,
    filter: &DeviceFilter,
    bus: Option<u8>,
) -> (r: Vec<PhysicalController<'a>>)
    ensures
        ctrl_views(r@) == select_spec(ctrl_views(controllers@), *filter, bus),
        (forall|i: int| 0 <= i < controllers@.len() ==> (#[trigger] controllers@[i]).root_hubs@.len() > 0)
            ==> (forall|j: int| 0 <= j < r@.len() ==> (#[trigger] r@[j]).root_hubs@.len() > 0),
{
    let ghost all_rooted = forall|i: int| 0 <= i < controllers@.len() ==> (#[trigger] controllers@[i]).root_hubs@.len() > 0;
    let active = filter.is_active();
    let ghost orig = controllers@;
    let mut rest = controllers;
    let mut out: Vec<PhysicalController<'a>> = Vec::new();
    let ghost mut done: int = 0;
    assert(ctrl_views(orig.take(0)) =~= Seq::<CtrlView>::empty());
    while rest.len() > 0
        invariant
            0 <= done <= orig.len(),
            rest@ == orig.skip(done),
            active == (filter.id is Some || filter.query is Some),
            ctrl_views(out@) == select_spec(ctrl_views(orig.take(done)), *filter, bus),
            orig == controllers@,
            all_rooted == (forall|i: int| 0 <= i < orig.len() ==> (#[trigger] orig[i]).root_hubs@.len() > 0),
            all_rooted ==> (forall|j: int| 0 <= j < out@.len() ==> (#[trigger] out@[j]).root_hubs@.len() > 0),
        decreases rest@.len(),
    {
        let mut c = rest.remove(0);
        proof {
            assert(c == orig[done]);
            assert(rest@ =~= orig.skip(done + 1));
            assert(ctrl_views(orig.take(done + 1)).drop_last() =~= ctrl_views(orig.take(done)));
            assert(ctrl_views(orig.take(done + 1)).last() == ctrl_view(c));
        }
        let ghost c0 = c;
        let ghost before = out@;
        let on = match bus {
            Some(b) => has_root_on_bus(&c, b),
            None => true,
        };
        if on {
            if active {
                filter_physical_tree(&mut c.children, filter);
                if c.children.len() > 0 {
                    out.push(c);
                    proof {
                        assert(ctrl_views(out@) =~= ctrl_views(before).push(ctrl_view(c)));
                        assert(ctrl_view(c) == CtrlView {
                            children: prune_trees(ctrl_view(c0).children, |d: UsbDevice| device_filter_spec(*filter, d)),
                            ..ctrl_view(c0)
                        });
                    }
                } else {
                    proof {
                        lemma_trees_view_len(c.children@);
                    }
                }
            } else {
                out.push(c);
                proof {
                    assert(ctrl_views(out@) =~= ctrl_views(before).push(ctrl_view(c)));
                }
            }
        }
        proof {
            done = done + 1;
        }
    }
    proof {
        assert(orig.take(done) =~= orig);
    }
    out
}


/// Whether a listing filters at all: by ID, by query or by bus. A filtering
/// listing that shows nothing reports that nothing matched.
pub fn is_filtering(filter: &DeviceFilter, bus: Option<u8>) -> (r: bool)
    ensures
        r == (filter.id is Some || filter.query is Some || bus is Some),
{
    filter.is_active() || bus.is_some()
}


// ---------------------------------------------------------------------------
// The list order is a total order, and the list is sorted by it
// ---------------------------------------------------------------------------

proof fn lemma_segs_le_total(a: Seq<u16>, b: Seq<u16>)
    ensures
        segs_le(a, b) || segs_le(b, a),
    decreases a.len(),
{
    if a.len() > 0 && b.len() > 0 && a[0] == b[0] {
        lemma_segs_le_total(a.drop_first(), b.drop_first());
    }
}

proof fn lemma_segs_le_trans(a: Seq<u16>, b: Seq<u16>, c: Seq<u16>)
    requires
        segs_le(a, b),
        segs_le(b, c),
    ensures
        segs_le(a, c),
    decreases a.len(),
{
    if a.len() > 0 && b.len() > 0 && c.len() > 0 && a[0] == b[0] && b[0] == c[0] {
        lemma_segs_le_trans(a.drop_first(), b.drop_first(), c.drop_first());
    }
}

proof fn lemma_list_le_total(a: (u8, Seq<u16>), b: (u8, Seq<u16>))
    ensures
        list_le(a, b) || list_le(b, a),
{
    lemma_segs_le_total(a.1, b.1);
}

proof fn lemma_list_le_trans(a: (u8, Seq<u16>), b: (u8, Seq<u16>), c: (u8, Seq<u16>))
    requires
        list_le(a, b),
        list_le(b, c),
    ensures
        list_le(a, c),
{
    if a.0 == b.0 && b.0 == c.0 {
        lemma_segs_le_trans(a.1, b.1, c.1);
    }
}

/// Keyed devices in list order.
pub open spec fn in_list_order(s: Seq<(u8, Seq<u16>, UsbDevice)>) -> bool {
    forall|i: int, j: int| 0 <= i < j < s.len() ==> list_le((s[i].0, s[i].1), (s[j].0, s[j].1))
}

proof fn lemma_insert_listed_sorted(s: Seq<(u8, Seq<u16>, UsbDevice)>, x: (u8, Seq<u16>, UsbDevice))
    requires
        in_list_order(s),
    ensures
        in_list_order(insert_listed(s, x)),
        insert_listed(s, x).to_multiset() == s.to_multiset().insert(x),
    decreases s.len(),
{
    broadcast use vstd::seq_lib::group_to_multiset_ensures;

    if s.len() == 0 {
        assert(seq![x] =~= Seq::<(u8, Seq<u16>, UsbDevice)>::empty().push(x));
        assert(s =~= Seq::<(u8, Seq<u16>, UsbDevice)>::empty());
    } else if list_le((s.last().0, s.last().1), (x.0, x.1)) {
        assert forall|i: int, j: int| 0 <= i < j < s.push(x).len() implies list_le(
            (s.push(x)[i].0, s.push(x)[i].1),
            (s.push(x)[j].0, s.push(x)[j].1),
        ) by {
            if j == s.len() && i < s.len() - 1 {
                lemma_list_le_trans((s[i].0, s[i].1), (s.last().0, s.last().1), (x.0, x.1));
            }
        }
    } else {
        let t = s.drop_last();
        let l = s.last();
        lemma_list_le_total((l.0, l.1), (x.0, x.1));
        lemma_insert_listed_sorted(t, x);
        let a = insert_listed(t, x);
        assert forall|i: int| 0 <= i < a.len() implies list_le((a[i].0, a[i].1), (l.0, l.1)) by {
            let e = a[i];
            assert(a.to_multiset().count(e) > 0);
            if e != x {
                assert(t.to_multiset().count(e) > 0) by {
                    broadcast use vstd::multiset::group_multiset_axioms;

                }
                assert(t.contains(e));
                let j = choose|j: int| 0 <= j < t.len() && t[j] == e;
                assert(s[j] == e);
            }
        }
        assert forall|i: int, j: int| 0 <= i < j < a.push(l).len() implies list_le(
            (a.push(l)[i].0, a.push(l)[i].1),
            (a.push(l)[j].0, a.push(l)[j].1),
        ) by {
            if j < a.len() {
                assert(a.push(l)[i] == a[i] && a.push(l)[j] == a[j]);
            }
        }
        assert(s =~= t.push(l));
        assert(a.push(l).to_multiset() =~= s.to_multiset().insert(x)) by {
            broadcast use vstd::multiset::group_multiset_axioms;

        }
    }
}

proof fn lemma_sort_listed(s: Seq<(u8, Seq<u16>, UsbDevice)>)
    ensures
        in_list_order(sort_listed(s)),
        sort_listed(s).to_multiset() == s.to_multiset(),
    decreases s.len(),
{
    broadcast use vstd::seq_lib::group_to_multiset_ensures;

    if s.len() == 0 {
        assert(sort_listed(s) =~= s);
    } else {
        let t = s.drop_last();
        lemma_sort_listed(t);
        lemma_insert_listed_sorted(sort_listed(t), s.last());
        assert(s =~= t.push(s.last()));
    }
}

proof fn lemma_map_multiset<A, B>(a: Seq<A>, b: Seq<A>, f: spec_fn(A) -> B)
    requires
        a.to_multiset() == b.to_multiset(),
    ensures
        a.map_values(f).to_multiset() == b.map_values(f).to_multiset(),
    decreases a.len(),
{
    broadcast use vstd::seq_lib::group_to_multiset_ensures;

    if a.len() == 0 {
        assert(a.to_multiset().len() == 0);
        assert(b.to_multiset().len() == b.len());
        assert(b.len() == 0);
        assert(a.map_values(f) =~= b.map_values(f));
    } else {
        let x = a.last();
        let ra = a.drop_last();
        assert(a =~= ra.push(x));
        assert(a.to_multiset().count(x) > 0) by {
            broadcast use vstd::multiset::group_multiset_axioms;

        }
        assert(b.contains(x));
        let i = choose|i: int| 0 <= i < b.len() && b[i] == x;
        let rb = b.remove(i);
        assert(ra.to_multiset() =~= rb.to_multiset()) by {
            broadcast use vstd::multiset::group_multiset_axioms;

        }
        lemma_map_multiset(ra, rb, f);
        assert(a.map_values(f) =~= ra.map_values(f).push(f(x)));
        assert(b.map_values(f) =~= rb.map_values(f).insert(i, f(x)));
    }
}

/// The flat list is sorted by bus and then numerically by devpath ("1.10"
/// after "1.2"), and it holds exactly the devices the listing shows, each
/// as often as the input holds it.
pub proof fn lemma_list_sorted(devs: Seq<UsbDevice>, f: DeviceFilter, bus: Option<u8>)
    ensures
        forall|i: int, j: int|
            0 <= i < j < list_spec(devs, f, bus).len() ==> list_le(
                (list_spec(devs, f, bus)[i].bus, segments_spec(list_spec(devs, f, bus)[i])),
                (list_spec(devs, f, bus)[j].bus, segments_spec(list_spec(devs, f, bus)[j])),
            ),
        list_spec(devs, f, bus).to_multiset() == devs.filter(|d: UsbDevice| listed(f, bus, d)).to_multiset(),
{
    broadcast use vstd::seq_lib::group_to_multiset_ensures;

    let shown = devs.filter(|d: UsbDevice| listed(f, bus, d));
    let keyed = shown.map_values(|d: UsbDevice| (d.bus, segments_spec(d), d));
    let sorted = sort_listed(keyed);
    let third = |t: (u8, Seq<u16>, UsbDevice)| t.2;
    lemma_sort_listed(keyed);
    lemma_map_multiset(sorted, keyed, third);
    assert(keyed.map_values(third) =~= shown);
    let r = list_spec(devs, f, bus);
    assert(r == sorted.map_values(third));
    assert forall|i: int| 0 <= i < sorted.len() implies (#[trigger] sorted[i]).0 == sorted[i].2.bus
        && sorted[i].1 == segments_spec(sorted[i].2) by {
        let e = sorted[i];
        assert(sorted.to_multiset().count(e) > 0);
        assert(keyed.contains(e));
        let k = choose|k: int| 0 <= k < keyed.len() && keyed[k] == e;
        assert(keyed[k] == (shown[k].bus, segments_spec(shown[k]), shown[k]));
    }
    assert forall|i: int, j: int| 0 <= i < j < r.len() implies list_le(
        (r[i].bus, segments_spec(r[i])),
        (r[j].bus, segments_spec(r[j])),
    ) by {
        assert(r[i] == sorted[i].2 && r[j] == sorted[j].2);
        assert(sorted[i].0 == sorted[i].2.bus && sorted[i].1 == segments_spec(sorted[i].2));
        assert(sorted[j].0 == sorted[j].2.bus && sorted[j].1 == segments_spec(sorted[j].2));
    }
}

} // verus!
