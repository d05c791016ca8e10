//! Rendering the listing as text lines: the flat device list and the
//! controller tree, colored or plain.
use owo_colors::{OwoColorize, Style};
use vstd::prelude::*;

use crate::device::{
    display_name_spec, id_chars, id_spec, interface_list_spec, port_number_spec, unique_drivers_spec,
    UsbDevice, UsbInterface,
};
use crate::listing::{ctrl_view, ctrl_views, CtrlView};
use crate::topology::{
    lemma_trees_view_index, lemma_trees_view_len, trees_view, tree_view, PhysicalController, PhysicalDevice, TreeView,
};
use crate::text::{
    chars_of, copy_range, dec, dec_spec, hex_fixed, hex_fixed_spec, pad_left, pad_left_spec, string_of, views,
};
use crate::usb_class::{
    class_name, class_name_spec, interface_class_name, interface_class_name_spec, speed_label,
    speed_label_spec, speed_short, speed_short_spec,
};

verus! {

// ---------------------------------------------------------------------------
// Colors
// ---------------------------------------------------------------------------

/// The terminal styles the output uses.
#[derive(Clone, Copy)]
pub enum Paint {
    Plain,
    Bold,
    Cyan,
    Green,
    Blue,
    Yellow,
}

/// The SGR parameter of a style.
pub open spec fn sgr_code(p: Paint) -> Seq<char> {
    match p {
        Paint::Plain => seq![],
        Paint::Bold => seq!['1'],
        Paint::Cyan => seq!['3', '6'],
        Paint::Green => seq!['3', '2'],
        Paint::Blue => seq!['3', '4'],
        Paint::Yellow => seq!['3', '3'],
    }
}

/// `text` in style `p`: unchanged when plain, otherwise between the style's
/// escape sequence and the reset sequence.
pub open spec fn paint_spec(p: Paint, text: Seq<char>) -> Seq<char> {
    match p {
        Paint::Plain => text,
        _ => seq!['\x1b', '['] + sgr_code(p) + seq!['m'] + text + seq!['\x1b', '[', '0', 'm'],
    }
}

/// Displays `text.style(style)` of `owo_colors` (`OwoColorize::style`) into a
/// `String`, for the `Style` that `p` names: `Style::new()` and its
/// `bold()`, `cyan()`, `green()`, `blue()` and `yellow()`. Claimed, as the
/// crate's `Styled` `Display` impl and `Style::fmt_prefix`/`fmt_suffix`
/// show: a plain style writes the text alone; any other writes `ESC [`, the
/// style's SGR code, `m`, the text and `ESC [0m`.
#[verifier::external_body]
fn paint(text: &str, p: Paint) -> (r: String)
    ensures
        r@ == paint_spec(p, text@),
{
    let style = match p {
        Paint::Plain => Style::new(),
        Paint::Bold => Style::new().bold(),
        Paint::Cyan => Style::new().cyan(),
        Paint::Green => Style::new().green(),
        Paint::Blue => Style::new().blue(),
        Paint::Yellow => Style::new().yellow(),
    };
    format!("{}", text.style(style))
}

/// `chars` in style `p`, as characters.
fn paint_chars(chars: &[char], p: Paint) -> (r: Vec<char>)
    ensures
        r@ == paint_spec(p, chars@),
{
    let s = string_of(chars);
    let painted = paint(s.as_str(), p);
    chars_of(painted.as_str())
}

/// Output styling. With color disabled every style is plain and tree
/// fields are separated by two spaces instead of one, so that the fields
/// stay apart without color.
pub struct Theme {
    pub id: Paint,
    pub name: Paint,
    pub speed: Paint,
    pub driver: Paint,
    pub warn: Paint,
    pub label: Paint,
    pub sep: &'static str,
}

/// The theme for colored or plain output.
pub open spec fn theme_ok(t: Theme, color: bool) -> bool {
    if color {
        &&& t.id == Paint::Cyan
        &&& t.name == Paint::Bold
        &&& t.speed == Paint::Green
        &&& t.driver == Paint::Blue
        &&& t.warn == Paint::Yellow
        &&& t.label == Paint::Yellow
        &&& t.sep@ == " "@
    } else {
        &&& t.id == Paint::Plain
        &&& t.name == Paint::Plain
        &&& t.speed == Paint::Plain
        &&& t.driver == Paint::Plain
        &&& t.warn == Paint::Plain
        &&& t.label == Paint::Plain
        &&& t.sep@ == "  "@
    }
}

impl Theme {
    /// The theme for colored (`color`) or plain output.
    pub fn new(color: bool) -> (r: Theme)
        ensures
            theme_ok(r, color),
    {
        if color {
            Theme {
                id: Paint::Cyan,
                name: Paint::Bold,
                speed: Paint::Green,
                driver: Paint::Blue,
                warn: Paint::Yellow,
                label: Paint::Yellow,
                sep: " ",
            }
        } else {
            Theme {
                id: Paint::Plain,
                name: Paint::Plain,
                speed: Paint::Plain,
                driver: Paint::Plain,
                warn: Paint::Plain,
                label: Paint::Plain,
                sep: "  ",
            }
        }
    }
}

// ---------------------------------------------------------------------------
// Building lines
// ---------------------------------------------------------------------------

/// Appends the characters of `s` to `buf`.
fn push_str(buf: &mut Vec<char>, s: &str)
    ensures
        final(buf)@ == old(buf)@ + s@,
{
    let ghost start = buf@;
    for c in it: s.chars()
        invariant
            it.seq() == s@,
            buf@ == start + s@.take(it.index() as int),
    {
        proof {
            assert(s@.take(it.index() + 1) =~= s@.take(it.index() as int).push(c));
        }
        buf.push(c);
    }
    assert(s@.take(s@.len() as int) =~= s@);
}

/// Appends `s` to `buf`.
fn push_chars(buf: &mut Vec<char>, s: &[char])
    ensures
        final(buf)@ == old(buf)@ + s@,
{
    let ghost start = buf@;
    let n = s.len();
    for i in 0..n
        invariant
            n == s@.len(),
            buf@ == start + s@.take(i as int),
    {
        buf.push(s[i]);
        assert(s@.take(i + 1) =~= s@.take(i as int).push(s@[i as int]));
    }
    assert(s@.take(n as int) =~= s@);
}

/// The string views of a sequence of `String`s.
pub open spec fn string_views(v: Seq<String>) -> Seq<Seq<char>> {
    v.map_values(|s: String| s@)
}

// ---------------------------------------------------------------------------
// Names
// ---------------------------------------------------------------------------

/// The name a controller header shows for its fastest root hub.
pub open spec fn controller_name_spec(root_hub: UsbDevice) -> Seq<char> {
    match root_hub.product {
        Some(p) => p@,
        None => display_name_spec(root_hub),
    }
}

/// Header name for a controller. Root hubs carry the kernel version and
/// driver in their manufacturer string ("Linux 6.x xhci-hcd"); the product
/// alone ("xHCI Host Controller") is what a human wants to see.
pub fn controller_name(root_hub: &UsbDevice) -> (r: String)
    ensures
        r@ == controller_name_spec(*root_hub),
{
    match &root_hub.product {
        Some(p) => p.clone(),
        None => root_hub.display_name(),
    }
}


// ---------------------------------------------------------------------------
// Numbers and joins
// ---------------------------------------------------------------------------

/// `{:03}` of a number.
pub open spec fn dec3(v: nat) -> Seq<char> {
    pad_left_spec(dec_spec(v), 3, '0')
}

/// `{:02x}` of a byte.
pub open spec fn hex2(v: u8) -> Seq<char> {
    hex_fixed_spec(v as nat, 2)
}

/// `{:02x}:{:02x}:{:02x}` of a class triple.
pub open spec fn triple_spec(class: u8, subclass: u8, protocol: u8) -> Seq<char> {
    hex2(class) + seq![':'] + hex2(subclass) + seq![':'] + hex2(protocol)
}

fn dec3_chars(v: u8) -> (r: Vec<char>)
    ensures
        r@ == dec3(v as nat),
{
    let d = dec(v as u64);
    pad_left(d.as_slice(), 3, '0')
}

fn triple_chars(class: u8, subclass: u8, protocol: u8) -> (r: Vec<char>)
    ensures
        r@ == triple_spec(class, subclass, protocol),
{
    let mut buf = hex_fixed(class as u64, 2);
    buf.push(':');
    let s = hex_fixed(subclass as u64, 2);
    push_chars(&mut buf, s.as_slice());
    buf.push(':');
    let p = hex_fixed(protocol as u64, 2);
    push_chars(&mut buf, p.as_slice());
    buf
}

/// The parts joined with `sep` between them.
pub open spec fn join_spec(parts: Seq<Seq<char>>, sep: Seq<char>) -> Seq<char>
    decreases parts.len(),
{
    if parts.len() == 0 {
        seq![]
    } else if parts.len() == 1 {
        parts[0]
    } else {
        join_spec(parts.drop_last(), sep) + sep + parts.last()
    }
}

/// Appends the parts joined with `sep`.
fn push_joined(buf: &mut Vec<char>, parts: &Vec<Vec<char>>, sep: &str)
    ensures
        final(buf)@ == old(buf)@ + join_spec(views(parts@), sep@),
{
    let ghost start = buf@;
    let ghost pv = views(parts@);
    let n = parts.len();
    for i in 0..n
        invariant
            n == parts@.len(),
            pv == views(parts@),
            buf@ == start + join_spec(pv.take(i as int), sep@),
    {
        let ghost before = buf@;
        proof {
            assert(pv.take(i + 1).drop_last() =~= pv.take(i as int));
            assert(pv.take(i + 1).last() == parts@[i as int]@);
        }
        if i > 0 {
            push_str(buf, sep);
        }
        push_chars(buf, parts[i].as_slice());
        proof {
            if i == 0 {
                assert(pv.take(1)[0] == parts@[0]@);
                assert(pv.take(0) =~= Seq::<Seq<char>>::empty());
                assert(buf@ =~= start + join_spec(pv.take(1), sep@));
            } else {
                assert(buf@ =~= start + (join_spec(pv.take(i as int), sep@) + sep@ + parts@[i as int]@));
            }
        }
    }
    assert(pv.take(n as int) =~= pv);
}

// ---------------------------------------------------------------------------
// The flat list
// ---------------------------------------------------------------------------

/// The text of an optional field, or `dflt` when it is absent.
pub open spec fn opt_text(o: Option<String>, dflt: Seq<char>) -> Seq<char> {
    match o {
        Some(s) => s@,
        None => dflt,
    }
}

/// A class label derived from the interfaces: the first interface's label
/// when every interface has that same, nonzero class.
pub open spec fn effective_class_label_spec(d: UsbDevice) -> Option<Seq<char>> {
    let v = interface_list_spec(d);
    if v.len() > 0 && v[0].class != 0 && (forall|i: int| 0 <= i < v.len() ==> (#[trigger] v[i]).class == v[0].class) {
        Some(interface_class_name_spec(v[0].class, v[0].subclass, v[0].protocol))
    } else {
        None
    }
}

/// The bracketed label of a list line: the device class where it is
/// meaningful, "Hub" for hubs, else the interfaces' common class.
pub open spec fn class_label_spec(d: UsbDevice) -> Option<Seq<char>> {
    match d.device_class {
        Some(c) => if c.class != 0 && c.class != 9 {
            Some(class_name_spec(c.class))
        } else if c.class == 9 {
            Some("Hub"@)
        } else {
            effective_class_label_spec(d)
        },
        None => effective_class_label_spec(d),
    }
}

/// A device whose own class defers to its interfaces (class 0, or none
/// reported) gets no class label when two of its interfaces differ in class:
/// its list line is the line it would have with no interfaces at all. When
/// it does get a label from its interfaces, they all share one nonzero
/// class; and when they all share one nonzero class, it gets the first
/// interface's class name.
pub proof fn lemma_mixed_interfaces_give_no_label(d: UsbDevice, t: Theme, i: int, j: int)
    requires
        d.device_class is None || d.device_class->0.class == 0,
    ensures
        0 <= i < interface_list_spec(d).len() && 0 <= j < interface_list_spec(d).len()
            && interface_list_spec(d)[i].class != interface_list_spec(d)[j].class ==> {
            &&& class_label_spec(d) is None
            &&& device_line_spec(d, t) == device_line_spec(UsbDevice { interfaces: None, ..d }, t)
        },
        class_label_spec(d) is Some ==> interface_list_spec(d).len() > 0 && interface_list_spec(d)[0].class
            != 0 && forall|k: int|
            0 <= k < interface_list_spec(d).len() ==> (#[trigger] interface_list_spec(d)[k]).class
                == interface_list_spec(d)[0].class,
        interface_list_spec(d).len() > 0 && interface_list_spec(d)[0].class != 0 && (forall|k: int|
            0 <= k < interface_list_spec(d).len() ==> (#[trigger] interface_list_spec(d)[k]).class
                == interface_list_spec(d)[0].class) ==> class_label_spec(d) == Some(
            interface_class_name_spec(
                interface_list_spec(d)[0].class,
                interface_list_spec(d)[0].subclass,
                interface_list_spec(d)[0].protocol,
            ),
        ),
{
    let v = interface_list_spec(d);
    if 0 <= i < v.len() && 0 <= j < v.len() && v[i].class != v[j].class {
        if v.len() > 0 && v[0].class != 0 && (forall|k: int| 0 <= k < v.len() ==> (#[trigger] v[k]).class == v[0].class) {
            assert(v[i].class == v[0].class);
            assert(v[j].class == v[0].class);
        }
        let e = UsbDevice { interfaces: None, ..d };
        assert(interface_list_spec(e).len() == 0);
        assert(class_label_spec(e) is None);
        assert(display_name_spec(e) == display_name_spec(d));
    }
}

fn effective_class_label(dev: &UsbDevice) -> (r: Option<&'static str>)
    ensures
        match r {
            Some(l) => effective_class_label_spec(*dev) == Some(l@),
            None => effective_class_label_spec(*dev) is None,
        },
{
    let v = dev.interface_list();
    if v.len() == 0 {
        return None;
    }
    let first = v[0].class;
    let mut i: usize = 0;
    while i < v.len()
        invariant
            v@ == interface_list_spec(*dev),
            v@.len() > 0,
            first == v@[0].class,
            i <= v@.len(),
            forall|j: int| 0 <= j < i ==> (#[trigger] v@[j]).class == first,
        decreases v@.len() - i,
    {
        if v[i].class != first {
            return None;
        }
        i = i + 1;
    }
    if first == 0 {
        return None;
    }
    Some(interface_class_name(v[0].class, v[0].subclass, v[0].protocol))
}

fn class_label(dev: &UsbDevice) -> (r: Option<&'static str>)
    ensures
        match r {
            Some(l) => class_label_spec(*dev) == Some(l@),
            None => class_label_spec(*dev) is None,
        },
{
    match &dev.device_class {
        Some(c) => if c.class != 0 && c.class != 9 {
            Some(class_name(c.class))
        } else if c.class == 9 {
            Some("Hub")
        } else {
            effective_class_label(dev)
        },
        None => effective_class_label(dev),
    }
}

/// The first line of a device in the list.
pub open spec fn device_line_spec(d: UsbDevice, t: Theme) -> Seq<char> {
    let base = "Bus "@ + dec3(d.bus as nat) + " Dev "@ + dec3(d.devnum as nat) + ": "@ + paint_spec(
        t.id,
        id_spec(d.vendor_id, d.product_id),
    ) + " "@ + paint_spec(t.name, display_name_spec(d));
    match class_label_spec(d) {
        Some(l) => base + " ["@ + paint_spec(t.label, l) + "]"@,
        None => base,
    }
}

fn device_line(dev: &UsbDevice, theme: &Theme) -> (r: Vec<char>)
    ensures
        r@ == device_line_spec(*dev, *theme),
{
    let mut buf = chars_of("Bus ");
    let b = dec3_chars(dev.bus);
    push_chars(&mut buf, b.as_slice());
    push_str(&mut buf, " Dev ");
    let n = dec3_chars(dev.devnum);
    push_chars(&mut buf, n.as_slice());
    push_str(&mut buf, ": ");
    let id = id_chars(dev.vendor_id, dev.product_id);
    let id_p = paint_chars(id.as_slice(), theme.id);
    push_chars(&mut buf, id_p.as_slice());
    push_str(&mut buf, " ");
    let name = dev.display_name();
    let name_p = paint(name.as_str(), theme.name);
    push_str(&mut buf, name_p.as_str());
    match class_label(dev) {
        Some(l) => {
            push_str(&mut buf, " [");
            let lp = paint(l, theme.label);
            push_str(&mut buf, lp.as_str());
            push_str(&mut buf, "]");
        },
        None => {},
    }
    buf
}


/// How an interface shows in the `-v` interface summary: its driver and
/// class, or a dash for an unbound interface.
pub open spec fn iface_desc_spec(i: UsbInterface, t: Theme) -> Seq<char> {
    let class = interface_class_name_spec(i.class, i.subclass, i.protocol);
    match i.driver {
        Some(drv) => paint_spec(t.driver, drv@) + " ("@ + class + ")"@,
        None => "- ("@ + class + ")"@,
    }
}

/// The `-v` lines of a device: speed, USB version and power (each shown
/// only where reported), then the interface summary if there are any.
pub open spec fn verbose1_spec(d: UsbDevice, t: Theme) -> Seq<Seq<char>> {
    let a0 = "  "@ + paint_spec(t.speed, speed_label_spec(d.speed));
    let a1 = match d.usb_version {
        Some(v) => a0 + ", USB "@ + v@,
        None => a0,
    };
    let a2 = match d.max_power {
        Some(p) => a1 + ", "@ + p@,
        None => a1,
    };
    let ifl = interface_list_spec(d);
    if ifl.len() > 0 {
        seq![a2, "  Interfaces: "@ + join_spec(ifl.map_values(|i: UsbInterface| iface_desc_spec(i, t)), ", "@)]
    } else {
        seq![a2]
    }
}

fn iface_desc(i: &UsbInterface, theme: &Theme) -> (r: Vec<char>)
    ensures
        r@ == iface_desc_spec(*i, *theme),
{
    let class = interface_class_name(i.class, i.subclass, i.protocol);
    match &i.driver {
        Some(drv) => {
            let dp = paint(drv.as_str(), theme.driver);
            let mut buf = chars_of(dp.as_str());
            push_str(&mut buf, " (");
            push_str(&mut buf, class);
            push_str(&mut buf, ")");
            buf
        },
        None => {
            let mut buf = chars_of("- (");
            push_str(&mut buf, class);
            push_str(&mut buf, ")");
            buf
        },
    }
}

fn verbose1(dev: &UsbDevice, theme: &Theme) -> (r: Vec<Vec<char>>)
    ensures
        views(r@) == verbose1_spec(*dev, *theme),
{
    let mut a = chars_of("  ");
    let sp = paint(speed_label(dev.speed), theme.speed);
    push_str(&mut a, sp.as_str());
    match &dev.usb_version {
        Some(v) => {
            push_str(&mut a, ", USB ");
            push_str(&mut a, v.as_str());
        },
        None => {},
    }
    match &dev.max_power {
        Some(p) => {
            push_str(&mut a, ", ");
            push_str(&mut a, p.as_str());
        },
        None => {},
    }
    let mut lines: Vec<Vec<char>> = Vec::new();
    lines.push(a);
    let ifl = dev.interface_list();
    if ifl.len() > 0 {
        let mut parts: Vec<Vec<char>> = Vec::new();
        let n = ifl.len();
        for k in 0..n
            invariant
                n == ifl@.len(),
                parts@.len() == k,
                forall|j: int| 0 <= j < k ==> (#[trigger] parts@[j])@ == iface_desc_spec(ifl@[j], *theme),
        {
            parts.push(iface_desc(&ifl[k], theme));
        }
        let mut b = chars_of("  Interfaces: ");
        push_joined(&mut b, &parts, ", ");
        proof {
            assert(views(parts@) =~= ifl@.map_values(|i: UsbInterface| iface_desc_spec(i, *theme)));
        }
        lines.push(b);
    }
    proof {
        assert(views(lines@) =~= verbose1_spec(*dev, *theme));
    }
    lines
}

/// "N interface(s)".
pub open spec fn count_spec(n: u8) -> Seq<char> {
    dec_spec(n as nat) + " interface(s)"@
}

/// The `-vv` class line: the class triple and name with the interface
/// count, whichever of the two the backend reports.
pub open spec fn class_line_spec(d: UsbDevice) -> Option<Seq<char>> {
    match d.device_class {
        Some(c) => {
            let base = "  Class: "@ + triple_spec(c.class, c.subclass, c.protocol) + " ("@ + class_name_spec(c.class) + ")"@;
            Some(
                match d.num_interfaces {
                    Some(n) => base + ", "@ + count_spec(n),
                    None => base,
                },
            )
        },
        None => match d.num_interfaces {
            Some(n) => Some("  "@ + count_spec(n)),
            None => None,
        },
    }
}

/// The `-vv` line of one interface.
pub open spec fn iface_detail_spec(i: UsbInterface) -> Seq<char> {
    "  Interface "@ + dec_spec(i.number as nat) + ": class "@ + triple_spec(i.class, i.subclass, i.protocol)
        + ", "@ + dec_spec(i.num_endpoints as nat) + " endpoint(s), driver: "@ + opt_text(i.driver, "(none)"@)
}

/// The `-vv` lines of a device: class, serial, removability and hub ports
/// where reported, then one line per interface.
pub open spec fn verbose2_spec(d: UsbDevice) -> Seq<Seq<char>> {
    let l0: Seq<Seq<char>> = match class_line_spec(d) {
        Some(l) => seq![l],
        None => seq![],
    };
    let l1 = match d.serial {
        Some(s) => l0.push("  Serial: "@ + s@),
        None => l0,
    };
    let l2 = match d.removable {
        Some(r) => l1.push("  Removable: "@ + r@),
        None => l1,
    };
    let l3 = match d.max_children {
        Some(n) => l2.push("  Hub ports: "@ + dec_spec(n as nat)),
        None => l2,
    };
    l3 + interface_list_spec(d).map_values(|i: UsbInterface| iface_detail_spec(i))
}

fn count_chars(n: u8) -> (r: Vec<char>)
    ensures
        r@ == count_spec(n),
{
    let mut buf = dec(n as u64);
    push_str(&mut buf, " interface(s)");
    buf
}

fn class_line(dev: &UsbDevice) -> (r: Option<Vec<char>>)
    ensures
        match r {
            Some(l) => class_line_spec(*dev) == Some(l@),
            None => class_line_spec(*dev) is None,
        },
{
    match &dev.device_class {
        Some(c) => {
            let mut buf = chars_of("  Class: ");
            let t = triple_chars(c.class, c.subclass, c.protocol);
            push_chars(&mut buf, t.as_slice());
            push_str(&mut buf, " (");
            push_str(&mut buf, class_name(c.class));
            push_str(&mut buf, ")");
            match dev.num_interfaces {
                Some(n) => {
                    push_str(&mut buf, ", ");
                    let cc = count_chars(n);
                    push_chars(&mut buf, cc.as_slice());
                },
                None => {},
            }
            Some(buf)
        },
        None => match dev.num_interfaces {
            Some(n) => {
                let mut buf = chars_of("  ");
                let cc = count_chars(n);
                push_chars(&mut buf, cc.as_slice());
                Some(buf)
            },
            None => None,
        },
    }
}

fn iface_detail(i: &UsbInterface) -> (r: Vec<char>)
    ensures
        r@ == iface_detail_spec(*i),
{
    let mut buf = chars_of("  Interface ");
    let num = dec(i.number as u64);
    push_chars(&mut buf, num.as_slice());
    push_str(&mut buf, ": class ");
    let t = triple_chars(i.class, i.subclass, i.protocol);
    push_chars(&mut buf, t.as_slice());
    push_str(&mut buf, ", ");
    let e = dec(i.num_endpoints as u64);
    push_chars(&mut buf, e.as_slice());
    push_str(&mut buf, " endpoint(s), driver: ");
    match &i.driver {
        Some(d) => push_str(&mut buf, d.as_str()),
        None => push_str(&mut buf, "(none)"),
    }
    buf
}

fn prefixed(prefix: &str, s: &str) -> (r: Vec<char>)
    ensures
        r@ == prefix@ + s@,
{
    let mut buf = chars_of(prefix);
    push_str(&mut buf, s);
    buf
}

fn verbose2(dev: &UsbDevice) -> (r: Vec<Vec<char>>)
    ensures
        views(r@) == verbose2_spec(*dev),
{
    let mut lines: Vec<Vec<char>> = Vec::new();
    match class_line(dev) {
        Some(l) => lines.push(l),
        None => {},
    }
    match &dev.serial {
        Some(s) => lines.push(prefixed("  Serial: ", s.as_str())),
        None => {},
    }
    match &dev.removable {
        Some(r) => lines.push(prefixed("  Removable: ", r.as_str())),
        None => {},
    }
    match dev.max_children {
        Some(n) => {
            let mut buf = chars_of("  Hub ports: ");
            let d = dec(n as u64);
            push_chars(&mut buf, d.as_slice());
            lines.push(buf);
        },
        None => {},
    }
    let ghost head = views(lines@);
    let ifl = dev.interface_list();
    let n = ifl.len();
    for k in 0..n
        invariant
            n == ifl@.len(),
            ifl@ == interface_list_spec(*dev),
            views(lines@) == head + ifl@.take(k as int).map_values(|i: UsbInterface| iface_detail_spec(i)),
    {
        let l = iface_detail(&ifl[k]);
        let ghost before = lines@;
        lines.push(l);
        proof {
            assert(views(lines@) =~= views(before).push(iface_detail_spec(ifl@[k as int])));
            assert(ifl@.take(k + 1).map_values(|i: UsbInterface| iface_detail_spec(i)) =~= ifl@.take(
                k as int,
            ).map_values(|i: UsbInterface| iface_detail_spec(i)).push(iface_detail_spec(ifl@[k as int])));
            assert(views(lines@) =~= head + ifl@.take(k + 1).map_values(|i: UsbInterface| iface_detail_spec(i)));
        }
    }
    proof {
        assert(ifl@.take(n as int) =~= ifl@);
        assert(views(lines@) =~= verbose2_spec(*dev));
    }
    lines
}

/// The lines of one device in the list: its line, then the `-v` and `-vv`
/// details as the verbosity asks.
pub open spec fn device_lines_spec(d: UsbDevice, verbose: u8, t: Theme) -> Seq<Seq<char>> {
    let a = seq![device_line_spec(d, t)];
    let b = if verbose >= 1 {
        a + verbose1_spec(d, t)
    } else {
        a
    };
    if verbose >= 2 {
        b + verbose2_spec(d)
    } else {
        b
    }
}

/// The flat list: the lines of each device in turn.
pub open spec fn list_lines_spec(devs: Seq<UsbDevice>, verbose: u8, t: Theme) -> Seq<Seq<char>>
    decreases devs.len(),
{
    if devs.len() == 0 {
        seq![]
    } else {
        list_lines_spec(devs.drop_last(), verbose, t) + device_lines_spec(devs.last(), verbose, t)
    }
}

/// Appends each line as a `String`.
fn push_lines(out: &mut Vec<String>, lines: &Vec<Vec<char>>)
    ensures
        string_views(final(out)@) == string_views(old(out)@) + views(lines@),
{
    let ghost start = string_views(out@);
    let n = lines.len();
    for k in 0..n
        invariant
            n == lines@.len(),
            string_views(out@) == start + views(lines@).take(k as int),
    {
        let s = string_of(lines[k].as_slice());
        let ghost before = out@;
        out.push(s);
        proof {
            assert(string_views(out@) =~= string_views(before).push(lines@[k as int]@));
            assert(views(lines@).take(k + 1) =~= views(lines@).take(k as int).push(lines@[k as int]@));
            assert(string_views(out@) =~= start + views(lines@).take(k + 1));
        }
    }
    assert(views(lines@).take(n as int) =~= views(lines@));
}

/// The flat device list as text lines, in the given theme: per device its
/// line, and with `verbose` 1 or more its speed and interface summary, with
/// 2 or more its class, serial and interface details.
pub fn list_lines(devices: &[UsbDevice], verbose: u8, theme: &Theme) -> (r: Vec<String>)
    ensures
        string_views(r@) == list_lines_spec(devices@, verbose, *theme),
{
    let mut out: Vec<String> = Vec::new();
    let n = devices.len();
    for k in 0..n
        invariant
            n == devices@.len(),
            string_views(out@) == list_lines_spec(devices@.take(k as int), verbose, *theme),
    {
        let dev = &devices[k];
        let mut lines: Vec<Vec<char>> = Vec::new();
        lines.push(device_line(dev, theme));
        if verbose >= 1 {
            let mut v1 = verbose1(dev, theme);
            let ghost l0 = lines@;
            let ghost w = v1@;
            lines.append(&mut v1);
            proof {
                assert(views(lines@) =~= views(l0) + views(w));
            }
        }
        if verbose >= 2 {
            let mut v2 = verbose2(dev);
            let ghost l0 = lines@;
            let ghost w = v2@;
            lines.append(&mut v2);
            proof {
                assert(views(lines@) =~= views(l0) + views(w));
            }
        }
        proof {
            assert(views(lines@) =~= device_lines_spec(devices@[k as int], verbose, *theme));
            assert(devices@.take(k + 1).drop_last() =~= devices@.take(k as int));
        }
        push_lines(&mut out, &lines);
    }
    assert(devices@.take(n as int) =~= devices@);
    out
}


// ---------------------------------------------------------------------------
// The tree
// ---------------------------------------------------------------------------

/// The port column of a tree line: `{:2}` of the port number, 0 when the
/// devpath gives none.
pub open spec fn port_text(d: UsbDevice) -> Seq<char> {
    let p: nat = match port_number_spec(d) {
        Some(p) => p as nat,
        None => 0,
    };
    pad_left_spec(dec_spec(p), 2, ' ')
}

/// The line of one tree node after `prefix` and `connector`: port, ID,
/// name and speed; the port's capability when the device is throttled by
/// it; its drivers; and with `-v` its USB version and power where reported.
pub open spec fn node_line_spec(n: TreeView, prefix: Seq<char>, connector: Seq<char>, verbose: u8, t: Theme) -> Seq<char> {
    let d = n.device;
    let sep = t.sep@;
    let a0 = prefix + connector + "Port "@ + port_text(d) + ":"@ + sep + paint_spec(
        t.id,
        id_spec(d.vendor_id, d.product_id),
    ) + sep + paint_spec(t.name, display_name_spec(d)) + sep + paint_spec(t.speed, speed_short_spec(d.speed));
    let a1 = if n.speed_limited {
        a0 + " "@ + paint_spec(t.warn, "(of "@ + speed_short_spec(n.port_max_speed as u64) + ")"@)
    } else {
        a0
    };
    let drivers = unique_drivers_spec(interface_list_spec(d));
    let a2 = if drivers.len() > 0 {
        a1 + sep + paint_spec(t.driver, "["@ + join_spec(drivers, ", "@) + "]"@)
    } else {
        a1
    };
    if verbose >= 1 {
        let b0 = match d.usb_version {
            Some(v) => a2 + ", USB "@ + v@,
            None => a2,
        };
        match d.max_power {
            Some(p) => b0 + ", "@ + p@,
            None => b0,
        }
    } else {
        a2
    }
}

/// `s` ends with `sfx`.
pub open spec fn ends_with_text(s: Seq<char>, sfx: Seq<char>) -> bool {
    s.len() >= sfx.len() && s.subrange(s.len() - sfx.len(), s.len() as int) == sfx
}

/// With `-v` a tree line is the plain line followed by the device's USB
/// version (", USB 2.00") and power (", 98mA"), each where reported, power
/// last: a line of a device that reports its power ends with it.
pub proof fn lemma_tree_line_verbose_suffix(
    n: TreeView,
    prefix: Seq<char>,
    connector: Seq<char>,
    verbose: u8,
    t: Theme,
)
    ensures
        verbose >= 1 ==> node_line_spec(n, prefix, connector, verbose, t) == node_line_spec(
            n,
            prefix,
            connector,
            0,
            t,
        ) + match n.device.usb_version {
            Some(v) => ", USB "@ + v@,
            None => Seq::<char>::empty(),
        } + match n.device.max_power {
            Some(p) => ", "@ + p@,
            None => Seq::<char>::empty(),
        },
        verbose >= 1 && n.device.max_power is Some ==> ends_with_text(
            node_line_spec(n, prefix, connector, verbose, t),
            ", "@ + n.device.max_power->0@,
        ),
        verbose >= 1 && n.device.max_power is None && n.device.usb_version is Some ==> ends_with_text(
            node_line_spec(n, prefix, connector, verbose, t),
            ", USB "@ + n.device.usb_version->0@,
        ),
{
    let base = node_line_spec(n, prefix, connector, 0, t);
    let line = node_line_spec(n, prefix, connector, verbose, t);
    let va = match n.device.usb_version {
        Some(v) => ", USB "@ + v@,
        None => Seq::<char>::empty(),
    };
    let pa = match n.device.max_power {
        Some(p) => ", "@ + p@,
        None => Seq::<char>::empty(),
    };
    if verbose >= 1 {
        assert(line =~= base + va + pa);
        let sfx = base + va;
        assert((sfx + pa).subrange(sfx.len() as int, (sfx + pa).len() as int) =~= pa);
        assert((base + va).subrange(base.len() as int, (base + va).len() as int) =~= va);
        if n.device.max_power is None {
            assert(pa =~= Seq::<char>::empty());
            assert(line =~= base + va);
        }
    }
}

/// With `-v` the first detail line of a listed device ends with its power
/// where it reports one.
pub proof fn lemma_list_verbose_power(d: UsbDevice, verbose: u8, t: Theme)
    ensures
        verbose >= 1 && d.max_power is Some ==> ends_with_text(
            device_lines_spec(d, verbose, t)[1],
            ", "@ + d.max_power->0@,
        ),
{
    if verbose >= 1 && d.max_power is Some {
        let l = verbose1_spec(d, t)[0];
        assert(device_lines_spec(d, verbose, t)[1] == l);
        let a0 = "  "@ + paint_spec(t.speed, speed_label_spec(d.speed));
        let a1 = match d.usb_version {
            Some(v) => a0 + ", USB "@ + v@,
            None => a0,
        };
        let pa = ", "@ + d.max_power->0@;
        assert(l == a1 + pa);
        assert((a1 + pa).subrange(a1.len() as int, (a1 + pa).len() as int) =~= pa);
    }
}

/// The `-vv` line of an interface below a tree node.
pub open spec fn intf_line_spec(i: UsbInterface, prefix: Seq<char>) -> Seq<char> {
    prefix + "intf "@ + dec_spec(i.number as nat) + ": "@ + interface_class_name_spec(i.class, i.subclass, i.protocol)
        + " (driver: "@ + opt_text(i.driver, "none"@) + ")"@
}

/// The branch connector of a node: a corner for the last child.
pub open spec fn connector_spec(last: bool) -> Seq<char> {
    if last {
        "└── "@
    } else {
        "├── "@
    }
}

/// What continues the prefix below a node: blank below the last child,
/// a vertical bar otherwise.
pub open spec fn indent_spec(last: bool) -> Seq<char> {
    if last {
        "    "@
    } else {
        "│   "@
    }
}

/// The lines of one node and everything below it.
pub open spec fn node_block(n: TreeView, last: bool, prefix: Seq<char>, verbose: u8, t: Theme) -> Seq<Seq<char>>
    decreases n,
{
    let child_prefix = prefix + indent_spec(last);
    let head = seq![node_line_spec(n, prefix, connector_spec(last), verbose, t)];
    let details = if verbose >= 2 {
        let dp = child_prefix + indent_spec(n.children.len() == 0);
        interface_list_spec(n.device).map_values(|i: UsbInterface| intf_line_spec(i, dp))
    } else {
        seq![]
    };
    head + details + nodes_lines(n.children, child_prefix, verbose, t, true)
}

/// The lines of a row of sibling nodes; `ends` tells whether the row's
/// final node is the last child of its parent.
pub open spec fn nodes_lines(ns: Seq<TreeView>, prefix: Seq<char>, verbose: u8, t: Theme, ends: bool) -> Seq<Seq<char>>
    decreases ns,
{
    if ns.len() == 0 {
        seq![]
    } else {
        let last = ns[ns.len() - 1];
        proof {
            assert(decreases_to!(ns => last));
        }
        nodes_lines(ns.subrange(0, ns.len() - 1), prefix, verbose, t, false) + node_block(last, ends, prefix, verbose, t)
    }
}

fn node_line(pdev: &PhysicalDevice, prefix: &Vec<char>, last: bool, verbose: u8, theme: &Theme) -> (r: Vec<char>)
    ensures
        r@ == node_line_spec(tree_view(*pdev), prefix@, connector_spec(last), verbose, *theme),
{
    let dev = pdev.device;
    let mut buf = copy_range(prefix.as_slice(), 0, prefix.len());
    assert(prefix@.subrange(0, prefix@.len() as int) =~= prefix@);
    if last {
        push_str(&mut buf, "└── ");
    } else {
        push_str(&mut buf, "├── ");
    }
    push_str(&mut buf, "Port ");
    let port: u16 = match dev.port_number() {
        Some(p) => p,
        None => 0,
    };
    let pd = dec(port as u64);
    let pt = pad_left(pd.as_slice(), 2, ' ');
    push_chars(&mut buf, pt.as_slice());
    push_str(&mut buf, ":");
    push_str(&mut buf, theme.sep);
    let id = id_chars(dev.vendor_id, dev.product_id);
    let id_p = paint_chars(id.as_slice(), theme.id);
    push_chars(&mut buf, id_p.as_slice());
    push_str(&mut buf, theme.sep);
    let name = dev.display_name();
    let name_p = paint(name.as_str(), theme.name);
    push_str(&mut buf, name_p.as_str());
    push_str(&mut buf, theme.sep);
    let sp = paint(speed_short(dev.speed), theme.speed);
    push_str(&mut buf, sp.as_str());
    if pdev.speed_limited {
        push_str(&mut buf, " ");
        let w = prefixed("(of ", speed_short(pdev.port_max_speed));
        let mut w2 = w;
        push_str(&mut w2, ")");
        let wp = paint_chars(w2.as_slice(), theme.warn);
        push_chars(&mut buf, wp.as_slice());
    }
    let drivers = dev.unique_drivers();
    if drivers.len() > 0 {
        let mut parts: Vec<Vec<char>> = Vec::new();
        for k in 0..drivers.len()
            invariant
                parts@.len() == k,
                forall|j: int| 0 <= j < k ==> (#[trigger] parts@[j])@ == drivers@[j]@,
        {
            parts.push(chars_of(drivers[k].as_str()));
        }
        assert(views(parts@) =~= drivers@.map_values(|s: String| s@));
        let mut dl = chars_of("[");
        push_joined(&mut dl, &parts, ", ");
        push_str(&mut dl, "]");
        push_str(&mut buf, theme.sep);
        let dp = paint_chars(dl.as_slice(), theme.driver);
        push_chars(&mut buf, dp.as_slice());
    }
    if verbose >= 1 {
        match &dev.usb_version {
            Some(v) => {
                push_str(&mut buf, ", USB ");
                push_str(&mut buf, v.as_str());
            },
            None => {},
        }
        match &dev.max_power {
            Some(p) => {
                push_str(&mut buf, ", ");
                push_str(&mut buf, p.as_str());
            },
            None => {},
        }
    }
    buf
}


/// Appends the lines of one node and everything below it.
fn push_node_block(
    out: &mut Vec<String>,
    pdev: &PhysicalDevice,
    last: bool,
    prefix: &Vec<char>,
    verbose: u8,
    theme: &Theme,
)
    ensures
        string_views(final(out)@) == string_views(old(out)@) + node_block(tree_view(*pdev), last, prefix@, verbose, *theme),
    decreases *pdev, 1nat,
{
    let ghost n = tree_view(*pdev);
    let mut lines: Vec<Vec<char>> = Vec::new();
    lines.push(node_line(pdev, prefix, last, verbose, theme));
    let mut child_prefix = copy_range(prefix.as_slice(), 0, prefix.len());
    assert(prefix@.subrange(0, prefix@.len() as int) =~= prefix@);
    if last {
        push_str(&mut child_prefix, "    ");
    } else {
        push_str(&mut child_prefix, "│   ");
    }
    proof {
        lemma_trees_view_len(pdev.children@);
    }
    if verbose >= 2 {
        let mut dp = copy_range(child_prefix.as_slice(), 0, child_prefix.len());
        assert(child_prefix@.subrange(0, child_prefix@.len() as int) =~= child_prefix@);
        if pdev.children.len() == 0 {
            push_str(&mut dp, "    ");
        } else {
            push_str(&mut dp, "│   ");
        }
        let ifl = pdev.device.interface_list();
        let ghost l0 = views(lines@);
        let m = ifl.len();
        for k in 0..m
            invariant
                m == ifl@.len(),
                views(lines@) == l0 + ifl@.take(k as int).map_values(|i: UsbInterface| intf_line_spec(i, dp@)),
        {
            let i = &ifl[k];
            let mut buf = copy_range(dp.as_slice(), 0, dp.len());
            assert(dp@.subrange(0, dp@.len() as int) =~= dp@);
            push_str(&mut buf, "intf ");
            let num = dec(i.number as u64);
            push_chars(&mut buf, num.as_slice());
            push_str(&mut buf, ": ");
            push_str(&mut buf, interface_class_name(i.class, i.subclass, i.protocol));
            push_str(&mut buf, " (driver: ");
            match &i.driver {
                Some(d) => push_str(&mut buf, d.as_str()),
                None => push_str(&mut buf, "none"),
            }
            push_str(&mut buf, ")");
            let ghost before = lines@;
            lines.push(buf);
            proof {
                assert(views(lines@) =~= views(before).push(intf_line_spec(ifl@[k as int], dp@)));
                assert(ifl@.take(k + 1).map_values(|i: UsbInterface| intf_line_spec(i, dp@)) =~= ifl@.take(
                    k as int,
                ).map_values(|i: UsbInterface| intf_line_spec(i, dp@)).push(intf_line_spec(ifl@[k as int], dp@)));
            }
        }
        assert(ifl@.take(m as int) =~= ifl@);
    }
    push_lines(out, &lines);
    proof {
        assert(decreases_to!(*pdev => pdev.children));
        assert(decreases_to!(pdev.children => pdev.children@));
    }
    push_nodes(out, pdev.children.as_slice(), &child_prefix, verbose, theme);
    proof {
        let head = seq![node_line_spec(n, prefix@, connector_spec(last), verbose, *theme)];
        let details: Seq<Seq<char>> = if verbose >= 2 {
            let dp = child_prefix@ + indent_spec(n.children.len() == 0);
            interface_list_spec(n.device).map_values(|i: UsbInterface| intf_line_spec(i, dp))
        } else {
            seq![]
        };
        assert(views(lines@) =~= head + details);
    }
}

/// Appends the lines of a row of sibling nodes, the last of them the
/// parent's last child.
fn push_nodes(out: &mut Vec<String>, children: &[PhysicalDevice], prefix: &Vec<char>, verbose: u8, theme: &Theme)
    ensures
        string_views(final(out)@) == string_views(old(out)@) + nodes_lines(trees_view(children@), prefix@, verbose, *theme, true),
    decreases children@, 0nat,
{
    let ghost start = string_views(out@);
    let ghost tv = trees_view(children@);
    proof {
        lemma_trees_view_len(children@);
    }
    let count = children.len();
    if count == 0 {
        assert(string_views(out@) =~= start + nodes_lines(tv, prefix@, verbose, *theme, true));
        return;
    }
    let mut i: usize = 0;
    assert(tv.take(0) =~= Seq::<TreeView>::empty());
    while i + 1 < count
        invariant
            count == children@.len(),
            tv.len() == count,
            tv == trees_view(children@),
            i < count,
            string_views(out@) == start + nodes_lines(tv.take(i as int), prefix@, verbose, *theme, false),
        decreases count - i,
    {
        proof {
            lemma_trees_view_index(children@, i as int);
            assert(decreases_to!(children@ => children@[i as int]));
        }
        push_node_block(out, &children[i], false, prefix, verbose, theme);
        proof {
            let t1 = tv.take(i + 1);
            assert(t1.subrange(0, t1.len() - 1) =~= tv.take(i as int));
            assert(t1[t1.len() - 1] == tv[i as int]);
            assert(string_views(out@) =~= start + nodes_lines(tv.take(i + 1), prefix@, verbose, *theme, false));
        }
        i = i + 1;
    }
    proof {
        lemma_trees_view_index(children@, i as int);
        assert(decreases_to!(children@ => children@[i as int]));
    }
    push_node_block(out, &children[i], true, prefix, verbose, theme);
    proof {
        assert(tv.subrange(0, tv.len() - 1) =~= tv.take(i as int));
        assert(tv[tv.len() - 1] == tv[i as int]);
        assert(string_views(out@) =~= start + nodes_lines(tv, prefix@, verbose, *theme, true));
    }
}

/// The header line of a controller: its buses fastest first, its name,
/// its top speed and, with `-v`, its PCI slot where known.
pub open spec fn header_spec(c: CtrlView, verbose: u8, t: Theme) -> Seq<char> {
    let buses = join_spec(c.roots.map_values(|r: UsbDevice| dec3(r.bus as nat)), "/"@);
    let a = "Bus "@ + buses + "  "@ + paint_spec(t.name, controller_name_spec(c.roots[0])) + "  "@ + paint_spec(
        t.speed,
        speed_short_spec(c.max_speed),
    );
    match c.pci_slot {
        Some(s) => if verbose >= 1 {
            a + "  ["@ + s + "]"@
        } else {
            a
        },
        None => a,
    }
}

/// The lines of one controller: its header and its tree.
pub open spec fn ctrl_lines_spec(c: CtrlView, verbose: u8, t: Theme) -> Seq<Seq<char>> {
    seq![header_spec(c, verbose, t)] + nodes_lines(c.children, seq![], verbose, t, true)
}

/// The tree listing: the lines of each controller in turn.
pub open spec fn tree_lines_spec(cs: Seq<CtrlView>, verbose: u8, t: Theme) -> Seq<Seq<char>>
    decreases cs.len(),
{
    if cs.len() == 0 {
        seq![]
    } else {
        tree_lines_spec(cs.drop_last(), verbose, t) + ctrl_lines_spec(cs.last(), verbose, t)
    }
}

fn header(c: &PhysicalController, verbose: u8, theme: &Theme) -> (r: Vec<char>)
    requires
        c.root_hubs@.len() > 0,
    ensures
        r@ == header_spec(ctrl_view(*c), verbose, *theme),
{
    let ghost cv = ctrl_view(*c);
    let mut parts: Vec<Vec<char>> = Vec::new();
    for k in 0..c.root_hubs.len()
        invariant
            cv == ctrl_view(*c),
            parts@.len() == k,
            forall|j: int| 0 <= j < k ==> (#[trigger] parts@[j])@ == dec3(cv.roots[j].bus as nat),
    {
        parts.push(dec3_chars(c.root_hubs[k].bus));
    }
    assert(views(parts@) =~= cv.roots.map_values(|r: UsbDevice| dec3(r.bus as nat)));
    let mut buf = chars_of("Bus ");
    push_joined(&mut buf, &parts, "/");
    push_str(&mut buf, "  ");
    let name = controller_name(c.root_hubs[0]);
    let np = paint(name.as_str(), theme.name);
    push_str(&mut buf, np.as_str());
    push_str(&mut buf, "  ");
    let sp = paint(speed_short(c.max_speed), theme.speed);
    push_str(&mut buf, sp.as_str());
    match &c.pci_slot {
        Some(slot) => if verbose >= 1 {
            push_str(&mut buf, "  [");
            push_str(&mut buf, slot.as_str());
            push_str(&mut buf, "]");
        },
        None => {},
    }
    buf
}

/// The controller tree as text lines, in the given theme: per controller
/// its header, then its devices as a tree with their ports, speeds,
/// throttling hints and drivers, and with `verbose` 2 or more their
/// interfaces. Every controller has a root hub.
pub fn tree_lines(controllers: &[PhysicalController], verbose: u8, theme: &Theme) -> (r: Vec<String>)
    requires
        forall|i: int| 0 <= i < controllers@.len() ==> (#[trigger] controllers@[i]).root_hubs@.len() > 0,
    ensures
        string_views(r@) == tree_lines_spec(ctrl_views(controllers@), verbose, *theme),
{
    let mut out: Vec<String> = Vec::new();
    let ghost cvs = ctrl_views(controllers@);
    let n = controllers.len();
    for k in 0..n
        invariant
            n == controllers@.len(),
            cvs == ctrl_views(controllers@),
            forall|i: int| 0 <= i < controllers@.len() ==> (#[trigger] controllers@[i]).root_hubs@.len() > 0,
            string_views(out@) == tree_lines_spec(cvs.take(k as int), verbose, *theme),
    {
        let c = &controllers[k];
        let ghost before = string_views(out@);
        let h = header(c, verbose, theme);
        let s = string_of(h.as_slice());
        let ghost o0 = out@;
        out.push(s);
        assert(string_views(out@) =~= string_views(o0).push(h@));
        let empty: Vec<char> = Vec::new();
        push_nodes(&mut out, c.children.as_slice(), &empty, verbose, theme);
        proof {
            assert(empty@ =~= Seq::<char>::empty());
            assert(cvs[k as int] == ctrl_view(*c));
            assert(cvs.take(k + 1).drop_last() =~= cvs.take(k as int));
            assert(string_views(out@) =~= before + ctrl_lines_spec(cvs[k as int], verbose, *theme));
        }
    }
    assert(cvs.take(n as int) =~= cvs);
    out
}


// ---------------------------------------------------------------------------
// When to color
// ---------------------------------------------------------------------------

/// When to use colored output.
#[derive(Clone, Copy)]
pub enum ColorMode {
    /// Color when stdout is a terminal and NO_COLOR is not set
    Auto,
    Always,
    Never,
}

impl ColorMode {
    /// Whether to color: always, never, or, in auto mode, when stdout is a
    /// terminal and the `NO_COLOR` variable (`no_color`) is unset or empty.
    pub fn use_color(self, no_color: &Option<String>, stdout_is_terminal: bool) -> (r: bool)
        ensures
            r == match self {
                ColorMode::Always => true,
                ColorMode::Never => false,
                ColorMode::Auto => !(no_color matches Some(v) && v@.len() > 0) && stdout_is_terminal,
            },
    {
        match self {
            ColorMode::Always => true,
            ColorMode::Never => false,
            ColorMode::Auto => {
                let set = match no_color {
                    Some(v) => !v.as_str().is_empty(),
                    None => false,
                };
                !set && stdout_is_terminal
            },
        }
    }
}

} // verus!
