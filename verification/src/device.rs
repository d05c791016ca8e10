//! The platform-neutral device model and the per-device logic on it.
use vstd::prelude::*;

use crate::text::{
    chars_of, concat, contains_spec, copy_range, matches_at, remove_controls, rfind, rfind_from,
    rfind_spec, string_of, trim, trim_end_spec, trim_spec, trim_start_spec, without_controls,
    is_control_spec, is_whitespace_spec, unicode_alphanumeric, is_alphanumeric, views,
    eq_ignore_ascii_case, eq_ignore_ascii_case_spec, hex_fixed, hex_fixed_spec, unicode_lowercase,
    to_lowercase, contains, rfind_char, rfind_char_spec, rfind_char_from, parse_bounded_spec,
    parse_u16, split, split_spec,
};

verus! {

/// A USB class triple (class, subclass, protocol) as reported by a descriptor.
pub struct ClassCode {
    pub class: u8,
    pub subclass: u8,
    pub protocol: u8,
}

/// One interface of a device.
pub struct UsbInterface {
    pub number: u8,
    pub class: u8,
    pub subclass: u8,
    pub protocol: u8,
    pub num_endpoints: u8,
    /// Driver basename, e.g. "usbhid", "hub"
    pub driver: Option<String>,
}

/// A USB device as read from a platform backend (Linux sysfs or macOS `IOKit`).
pub struct UsbDevice {
    /// Backend node key: the sysfs directory name on Linux ("5-2.1", "usb1"),
    /// synthesised in the same shape on macOS. Used to link ports to their hub.
    pub node_key: String,
    pub bus: u8,
    pub devnum: u8,
    /// Port topology path, e.g. "2.1" (root hubs have "0")
    pub devpath: String,
    pub vendor_id: u16,
    pub product_id: u16,
    /// Manufacturer string reported by the device itself
    pub manufacturer: Option<String>,
    /// Product string reported by the device itself
    pub product: Option<String>,
    /// From the usb.ids database
    pub vendor_name: Option<String>,
    /// From the usb.ids database
    pub product_name: Option<String>,
    pub serial: Option<String>,
    /// Negotiated speed in kbit/s (480 Mbps is 480000); 0 means the backend
    /// could not determine it
    pub speed: u64,
    /// USB spec version from the device descriptor, e.g. "2.00"; `None` where
    /// the backend does not report it
    pub usb_version: Option<String>,
    /// Device-level class triple; `None` where the backend does not report it
    pub device_class: Option<ClassCode>,
    /// e.g. "100mA"
    pub max_power: Option<String>,
    /// `bNumInterfaces` from the device descriptor
    pub num_interfaces: Option<u8>,
    pub removable: Option<String>,
    /// Number of downstream ports (hubs only)
    pub max_children: Option<u8>,
    /// `None` where the backend cannot enumerate interfaces at all, as opposed
    /// to `Some(vec![])` for a device that genuinely has none
    pub interfaces: Option<Vec<UsbInterface>>,
    /// PCI slot of the root hub this device belongs to (e.g. "0000:77:00.3")
    pub pci_slot: Option<String>,
    /// Name of the hub port this device is attached to (e.g. "usb2-port4" or
    /// "2-3-port1"); None for root hubs
    pub parent_port: Option<String>,
    /// Whether the backend can tell how the parent port is actually wired;
    /// only ports with known capability are reported as speed-limited.
    pub port_capability_known: bool,
}

/// The characters of an optional string.
pub open spec fn opt_view(o: Option<String>) -> Option<Seq<char>> {
    match o {
        Some(s) => Some(s@),
        None => None,
    }
}

// ---------------------------------------------------------------------------
// Sanitizing device-supplied strings
// ---------------------------------------------------------------------------

/// `s` stripped of control characters and then of surrounding whitespace.
pub open spec fn sanitize_spec(s: Seq<char>) -> Seq<char> {
    trim_spec(without_controls(s))
}

/// Strip control characters and surrounding whitespace. Descriptor strings
/// come from the device itself; a malicious one could otherwise inject
/// terminal escape sequences into our output.
pub fn sanitize(content: &str) -> (r: String)
    ensures
        r@ == sanitize_spec(content@),
{
    let cs = chars_of(content);
    let filtered = remove_controls(cs.as_slice());
    let trimmed = trim(filtered.as_slice());
    string_of(trimmed.as_slice())
}

/// An optional field after sanitizing: a field that sanitizes to nothing
/// becomes `None`.
pub open spec fn scrub_spec(f: Option<Seq<char>>) -> Option<Seq<char>> {
    match f {
        Some(s) => if sanitize_spec(s).len() == 0 {
            None
        } else {
            Some(sanitize_spec(s))
        },
        None => None,
    }
}

/// Sanitize an optional field in place; a field that sanitizes to nothing
/// becomes `None`.
fn scrub(field: &mut Option<String>)
    ensures
        opt_view(*final(field)) == scrub_spec(opt_view(*old(field))),
{
    let cleaned = match field {
        Some(s) => {
            let t = sanitize(s.as_str());
            let tc = chars_of(t.as_str());
            if tc.len() == 0 {
                None
            } else {
                Some(t)
            }
        },
        None => None,
    };
    *field = cleaned;
}

// ---------------------------------------------------------------------------
// Port names
// ---------------------------------------------------------------------------

/// The separator between a port's owner and its number: "-port".
pub open spec fn port_sep() -> Seq<char> {
    seq!['-', 'p', 'o', 'r', 't']
}

/// The sysfs-style name of a hub port: owner key, "-port", port number.
pub open spec fn port_name_spec(owner: Seq<char>, port: Seq<char>) -> Seq<char> {
    owner + port_sep() + port
}

/// The owner part of a port name: everything before the last "-port".
pub open spec fn port_owner_spec(port: Seq<char>) -> Option<Seq<char>> {
    match rfind_spec(port, port_sep()) {
        Some(i) => Some(port.take(i)),
        None => None,
    }
}

/// "-port" as characters.
pub fn port_sep_chars() -> (r: Vec<char>)
    ensures
        r@ == port_sep(),
{
    let mut r: Vec<char> = Vec::new();
    r.push('-');
    r.push('p');
    r.push('o');
    r.push('r');
    r.push('t');
    assert(r@ =~= port_sep());
    r
}

/// The sysfs-style name of a hub port: owner key plus port number, e.g.
/// `("usb1", "3")` -> "usb1-port3", `("1-2", "4")` -> "1-2-port4".
pub fn port_name(owner: &str, port: &str) -> (r: String)
    ensures
        r@ == port_name_spec(owner@, port@),
{
    let o = chars_of(owner);
    let sep = port_sep_chars();
    let p = chars_of(port);
    let a = concat(o.as_slice(), sep.as_slice());
    let b = concat(a.as_slice(), p.as_slice());
    string_of(b.as_slice())
}

/// Owner of a port name given as characters.
pub fn port_owner_chars(port: &[char]) -> (r: Option<Vec<char>>)
    ensures
        r matches Some(o) ==> port_owner_spec(port@) == Some(o@),
        r is None ==> port_owner_spec(port@) is None,
{
    let sep = port_sep_chars();
    match rfind(port, sep.as_slice()) {
        Some(i) => {
            proof {
                lemma_rfind_in_range(port@, port_sep());
            }
            let o = copy_range(port, 0, i);
            assert(o@ =~= port@.take(i as int));
            Some(o)
        },
        None => None,
    }
}

/// The hub instance a port belongs to: "2-3-port1" -> "2-3", "usb1-port6" -> "usb1".
/// Inverse of [`port_name`].
pub fn port_owner(port: &str) -> (r: Option<String>)
    ensures
        opt_view(r) == port_owner_spec(port@),
{
    let p = chars_of(port);
    match port_owner_chars(p.as_slice()) {
        Some(o) => Some(string_of(o.as_slice())),
        None => None,
    }
}

proof fn lemma_rfind_from_in_range(s: Seq<char>, pat: Seq<char>, i: int)
    ensures
        rfind_from(s, pat, i) matches Some(k) ==> 0 <= k <= i && matches_at(s, pat, k),
    decreases i + 1,
{
    if i >= 0 && !matches_at(s, pat, i) {
        lemma_rfind_from_in_range(s, pat, i - 1);
    }
}

/// A found occurrence lies inside the string.
pub proof fn lemma_rfind_in_range(s: Seq<char>, pat: Seq<char>)
    ensures
        rfind_spec(s, pat) matches Some(k) ==> 0 <= k && k + pat.len() <= s.len() && matches_at(
            s,
            pat,
            k,
        ),
{
    lemma_rfind_from_in_range(s, pat, s.len() - pat.len());
}

proof fn lemma_rfind_from_finds(s: Seq<char>, pat: Seq<char>, i: int, k: int)
    requires
        0 <= k <= i,
        matches_at(s, pat, k),
        forall|j: int| k < j <= i ==> !matches_at(s, pat, j),
    ensures
        rfind_from(s, pat, i) == Some(k),
    decreases i + 1,
{
    if i > k {
        lemma_rfind_from_finds(s, pat, i - 1, k);
    }
}

/// Naming a port and taking its owner gives the owner back, whenever the
/// port part does not itself contain "-port".
pub proof fn lemma_port_owner_of_port_name(owner: Seq<char>, port: Seq<char>)
    requires
        !contains_spec(port, port_sep()),
    ensures
        port_owner_spec(port_name_spec(owner, port)) == Some(owner),
{
    let s = port_name_spec(owner, port);
    let k = owner.len() as int;
    assert(s.subrange(k, k + 5) =~= port_sep());
    assert forall|j: int| k < j <= s.len() - 5 implies !matches_at(s, port_sep(), j) by {
        if j < k + 5 {
            assert(s[j] != '-');
            if matches_at(s, port_sep(), j) {
                assert(s.subrange(j, j + 5)[0] == s[j]);
            }
        } else {
            if matches_at(s, port_sep(), j) {
                assert(port.subrange(j - k - 5, j - k) =~= s.subrange(j, j + 5));
                assert(matches_at(port, port_sep(), j - k - 5));
            }
        }
    }
    lemma_rfind_from_finds(s, port_sep(), s.len() - 5, k);
    assert(s.take(k) =~= owner);
}


// ---------------------------------------------------------------------------
// Idempotence of sanitizing
// ---------------------------------------------------------------------------

proof fn lemma_trim_start_shape(s: Seq<char>) -> (k: int)
    ensures
        0 <= k <= s.len(),
        trim_start_spec(s) == s.skip(k),
        trim_start_spec(s).len() > 0 ==> !is_whitespace_spec(trim_start_spec(s)[0]),
    decreases s.len(),
{
    if s.len() > 0 && is_whitespace_spec(s[0]) {
        let k0 = lemma_trim_start_shape(s.drop_first());
        assert(s.drop_first().skip(k0) =~= s.skip(k0 + 1));
        k0 + 1
    } else {
        assert(s.skip(0) =~= s);
        0
    }
}

proof fn lemma_trim_end_shape(s: Seq<char>) -> (m: int)
    ensures
        0 <= m <= s.len(),
        trim_end_spec(s) == s.take(m),
        trim_end_spec(s).len() > 0 ==> !is_whitespace_spec(trim_end_spec(s).last()),
    decreases s.len(),
{
    if s.len() > 0 && is_whitespace_spec(s.last()) {
        let m0 = lemma_trim_end_shape(s.drop_last());
        assert(s.drop_last().take(m0) =~= s.take(m0));
        m0
    } else {
        assert(s.take(s.len() as int) =~= s);
        s.len() as int
    }
}

proof fn lemma_no_controls_filter_identity(s: Seq<char>)
    requires
        forall|i: int| 0 <= i < s.len() ==> !is_control_spec(#[trigger] s[i]),
    ensures
        without_controls(s) == s,
    decreases s.len(),
{
    reveal_with_fuel(Seq::filter, 1);
    if s.len() > 0 {
        lemma_no_controls_filter_identity(s.drop_last());
        assert(s.drop_last().push(s.last()) =~= s);
    } else {
        assert(without_controls(s) =~= s);
    }
}

proof fn lemma_filter_has_no_controls(s: Seq<char>)
    ensures
        forall|i: int|
            0 <= i < without_controls(s).len() ==> !is_control_spec(#[trigger] without_controls(s)[i]),
    decreases s.len(),
{
    reveal_with_fuel(Seq::filter, 1);
    if s.len() > 0 {
        lemma_filter_has_no_controls(s.drop_last());
    }
}

/// No character of `s` is a control character.
pub open spec fn no_controls(s: Seq<char>) -> bool {
    forall|i: int| 0 <= i < s.len() ==> !is_control_spec(#[trigger] s[i])
}

/// Sanitizing leaves no control character, whatever the input holds.
pub proof fn lemma_sanitize_no_controls(s: Seq<char>)
    ensures
        no_controls(sanitize_spec(s)),
{
    let f = without_controls(s);
    lemma_filter_has_no_controls(s);
    let a = trim_start_spec(f);
    let k = lemma_trim_start_shape(f);
    let t = trim_end_spec(a);
    let m = lemma_trim_end_shape(a);
    assert forall|i: int| 0 <= i < t.len() implies !is_control_spec(#[trigger] t[i]) by {
        assert(t[i] == f[k + i]);
    }
}

/// Sanitizing twice gives what sanitizing once gives.
pub proof fn lemma_sanitize_idempotent(s: Seq<char>)
    ensures
        sanitize_spec(sanitize_spec(s)) == sanitize_spec(s),
{
    let f = without_controls(s);
    lemma_filter_has_no_controls(s);
    let a = trim_start_spec(f);
    let k = lemma_trim_start_shape(f);
    let t = trim_end_spec(a);
    let m = lemma_trim_end_shape(a);
    assert forall|i: int| 0 <= i < t.len() implies !is_control_spec(#[trigger] t[i]) by {
        assert(t[i] == f[k + i]);
    }
    lemma_no_controls_filter_identity(t);
    if t.len() > 0 {
        assert(t[0] == a[0]);
        assert(trim_start_spec(t) == t);
        assert(trim_end_spec(t) == t);
    } else {
        assert(trim_start_spec(t) == t);
        assert(trim_end_spec(t) == t);
    }
}


// ---------------------------------------------------------------------------
// Names
// ---------------------------------------------------------------------------

/// The words of `s` (maximal runs of alphanumeric characters) still to come,
/// given the run `cur` collected so far.
pub open spec fn words_from(s: Seq<char>, cur: Seq<char>) -> Seq<Seq<char>>
    decreases s.len(),
{
    if s.len() == 0 {
        if cur.len() > 0 {
            seq![cur]
        } else {
            seq![]
        }
    } else if unicode_alphanumeric(s[0]) {
        words_from(s.drop_first(), cur.push(s[0]))
    } else {
        (if cur.len() > 0 {
            seq![cur]
        } else {
            seq![]
        }) + words_from(s.drop_first(), seq![])
    }
}

/// The words of `s`: the non-empty pieces between non-alphanumeric characters.
pub open spec fn words_spec(s: Seq<char>) -> Seq<Seq<char>> {
    words_from(s, seq![])
}

/// The words of `s`: the non-empty pieces between non-alphanumeric characters.
pub fn words(s: &[char]) -> (r: Vec<Vec<char>>)
    ensures
        views(r@) == words_spec(s@),
{
    let n = s.len();
    let mut r: Vec<Vec<char>> = Vec::new();
    let mut cur: Vec<char> = Vec::new();
    assert(s@.skip(0) =~= s@);
    for i in 0..n
        invariant
            n == s@.len(),
            views(r@) + words_from(s@.skip(i as int), cur@) == words_spec(s@),
    {
        assert(s@.skip(i as int).drop_first() =~= s@.skip(i + 1));
        assert(s@.skip(i as int)[0] == s@[i as int]);
        if is_alphanumeric(s[i]) {
            cur.push(s[i]);
        } else {
            if cur.len() > 0 {
                proof {
                    assert(views(r@.push(cur)) =~= views(r@) + seq![cur@]);
                }
                r.push(cur);
            } else {
                assert(views(r@) + seq![] =~= views(r@));
            }
            cur = Vec::new();
        }
    }
    if cur.len() > 0 {
        proof {
            assert(views(r@.push(cur)) =~= views(r@) + seq![cur@]);
        }
        r.push(cur);
    } else {
        assert(views(r@) + seq![] =~= views(r@));
    }
    r
}

/// Whether `product` already carries the manufacturer's name: the
/// manufacturer's first word, if it has at least two characters, equals one
/// of the product's words up to ASCII case.
pub open spec fn repeats_manufacturer_spec(manufacturer: Seq<char>, product: Seq<char>) -> bool {
    let ws = words_spec(manufacturer);
    if ws.len() == 0 || ws[0].len() < 2 {
        false
    } else {
        exists|i: int|
            0 <= i < words_spec(product).len() && eq_ignore_ascii_case_spec(
                #[trigger] words_spec(product)[i],
                ws[0],
            )
    }
}

/// Whether `product` already carries the manufacturer's name, so that
/// prefixing it would read "SMSL SMSL USB AUDIO".
///
/// Compares the manufacturer's leading word against the product's words. A
/// plain substring test does not do: it misses "Apple Inc." in "Apple Internal
/// Keyboard" (the legal suffix is not in the product) and would match any
/// fragment mid-word.
pub fn product_repeats_manufacturer(manufacturer: &[char], product: &[char]) -> (r: bool)
    ensures
        r == repeats_manufacturer_spec(manufacturer@, product@),
{
    let mw = words(manufacturer);
    if mw.len() == 0 {
        return false;
    }
    let brand = &mw[0];
    // Single letters match far too much to be evidence of anything
    if brand.len() < 2 {
        return false;
    }
    let pw = words(product);
    let n = pw.len();
    for i in 0..n
        invariant
            n == pw@.len(),
            views(pw@) == words_spec(product@),
            views(mw@) == words_spec(manufacturer@),
            mw@.len() > 0,
            brand@ == mw@[0]@,
            brand@.len() >= 2,
            forall|j: int| 0 <= j < i ==> !eq_ignore_ascii_case_spec(views(pw@)[j], brand@),
    {
        if eq_ignore_ascii_case(pw[i].as_slice(), brand.as_slice()) {
            proof {
                assert(views(pw@)[i as int] == pw@[i as int]@);
                assert(views(mw@)[0] == mw@[0]@);
                assert(eq_ignore_ascii_case_spec(
                    words_spec(product@)[i as int],
                    words_spec(manufacturer@)[0],
                ));
            }
            return true;
        }
        proof {
            assert(views(pw@)[i as int] == pw@[i as int]@);
        }
    }
    proof {
        assert(views(mw@)[0] == mw@[0]@);
    }
    false
}

/// `{:04x}:{:04x}` of a vendor and product ID.
pub open spec fn id_spec(vendor_id: u16, product_id: u16) -> Seq<char> {
    hex_fixed_spec(vendor_id as nat, 4) + seq![':'] + hex_fixed_spec(product_id as nat, 4)
}

/// `{:04x}:{:04x}` of a vendor and product ID.
pub fn id_chars(vendor_id: u16, product_id: u16) -> (r: Vec<char>)
    ensures
        r@ == id_spec(vendor_id, product_id),
{
    let v = hex_fixed(vendor_id as u64, 4);
    let mut colon: Vec<char> = Vec::new();
    colon.push(':');
    let p = hex_fixed(product_id as u64, 4);
    let a = concat(v.as_slice(), colon.as_slice());
    assert(colon@ =~= seq![':']);
    concat(a.as_slice(), p.as_slice())
}

/// `name`, prefixed by `maker` and a space unless the name already carries
/// the maker's brand.
pub open spec fn maker_and_name(maker: Option<Seq<char>>, name: Seq<char>) -> Seq<char> {
    match maker {
        Some(m) => if repeats_manufacturer_spec(m, name) {
            name
        } else {
            m + seq![' '] + name
        },
        None => name,
    }
}

/// Best available display name of a device: its own product string (with
/// its manufacturer), else the usb.ids product name (with the vendor name),
/// else the vendor name and the ID, else the bare ID.
pub open spec fn display_name_spec(d: UsbDevice) -> Seq<char> {
    match d.product {
        Some(p) => maker_and_name(opt_view(d.manufacturer), p@),
        None => match d.product_name {
            Some(n) => maker_and_name(opt_view(d.vendor_name), n@),
            None => match d.vendor_name {
                Some(v) => v@ + seq![' '] + id_spec(d.vendor_id, d.product_id),
                None => id_spec(d.vendor_id, d.product_id),
            },
        },
    }
}

proof fn lemma_hex_no_controls(v: nat, width: nat)
    ensures
        no_controls(hex_fixed_spec(v, width)),
    decreases width,
{
    if width > 0 {
        lemma_hex_no_controls(v / 16, (width - 1) as nat);
        let d = v % 16;
        let c = if d < 10 {
            (0x30 + d) as char
        } else {
            (0x61 + d - 10) as char
        };
        assert(c as u32 == (if d < 10 { (0x30 + d) as int } else { 0x61 + d - 10 }));
        let h = hex_fixed_spec(v, width);
        assert(h == hex_fixed_spec(v / 16, (width - 1) as nat).push(c));
        assert forall|i: int| 0 <= i < h.len() implies !is_control_spec(#[trigger] h[i]) by {
            if i < h.len() - 1 {
                assert(h[i] == hex_fixed_spec(v / 16, (width - 1) as nat)[i]);
            }
        }
    }
}

proof fn lemma_concat_no_controls(a: Seq<char>, b: Seq<char>)
    requires
        no_controls(a),
        no_controls(b),
    ensures
        no_controls(a + b),
{
    assert forall|i: int| 0 <= i < (a + b).len() implies !is_control_spec(#[trigger] (a + b)[i]) by {
        if i < a.len() {
            assert((a + b)[i] == a[i]);
        } else {
            assert((a + b)[i] == b[i - a.len()]);
        }
    }
}

/// The optional text holds no control character.
pub open spec fn opt_no_controls(o: Option<String>) -> bool {
    match o {
        Some(s) => no_controls(s@),
        None => true,
    }
}

/// A device whose four name fields hold no control character gets a
/// display name without one.
pub proof fn lemma_display_name_no_controls(d: UsbDevice)
    requires
        opt_no_controls(d.manufacturer),
        opt_no_controls(d.product),
        opt_no_controls(d.vendor_name),
        opt_no_controls(d.product_name),
    ensures
        no_controls(display_name_spec(d)),
{
    let sp: Seq<char> = seq![' '];
    assert(no_controls(sp)) by {
        assert(sp[0] == ' ');
    }
    lemma_hex_no_controls(d.vendor_id as nat, 4);
    lemma_hex_no_controls(d.product_id as nat, 4);
    let colon: Seq<char> = seq![':'];
    assert(no_controls(colon)) by {
        assert(colon[0] == ':');
    }
    lemma_concat_no_controls(hex_fixed_spec(d.vendor_id as nat, 4), colon);
    lemma_concat_no_controls(hex_fixed_spec(d.vendor_id as nat, 4) + colon, hex_fixed_spec(d.product_id as nat, 4));
    let id = id_spec(d.vendor_id, d.product_id);
    match d.product {
        Some(p) => {
            match d.manufacturer {
                Some(m) => {
                    lemma_concat_no_controls(m@, sp);
                    lemma_concat_no_controls(m@ + sp, p@);
                },
                None => {},
            }
        },
        None => match d.product_name {
            Some(n) => {
                match d.vendor_name {
                    Some(v) => {
                        lemma_concat_no_controls(v@, sp);
                        lemma_concat_no_controls(v@ + sp, n@);
                    },
                    None => {},
                }
            },
            None => match d.vendor_name {
                Some(v) => {
                    lemma_concat_no_controls(v@, sp);
                    lemma_concat_no_controls(v@ + sp, id);
                },
                None => {},
            },
        },
    }
}

/// A field after scrubbing holds no control character.
proof fn lemma_scrub_no_controls(f: Option<String>, g: Option<String>)
    requires
        opt_view(g) == scrub_spec(opt_view(f)),
    ensures
        opt_no_controls(g),
{
    match f {
        Some(s) => lemma_sanitize_no_controls(s@),
        None => {},
    }
}

/// Whatever a device reported, once its strings are sanitized its display
/// name holds no control character: no device can put an escape sequence
/// into the name the listing shows.
pub proof fn lemma_scrubbed_display_name(a: UsbDevice, b: UsbDevice)
    requires
        device_scrubbed(a, b),
    ensures
        no_controls(display_name_spec(b)),
{
    lemma_scrub_no_controls(a.manufacturer, b.manufacturer);
    lemma_scrub_no_controls(a.product, b.product);
    lemma_scrub_no_controls(a.vendor_name, b.vendor_name);
    lemma_scrub_no_controls(a.product_name, b.product_name);
    lemma_display_name_no_controls(b);
}

/// `a`, a space, `b`.
pub fn join_space(a: &[char], b: &[char]) -> (r: Vec<char>)
    ensures
        r@ == a@ + seq![' '] + b@,
{
    let mut sp: Vec<char> = Vec::new();
    sp.push(' ');
    assert(sp@ =~= seq![' ']);
    let x = concat(a, sp.as_slice());
    concat(x.as_slice(), b)
}

fn maker_and_name_exec(maker: &Option<String>, name: &String) -> (r: Vec<char>)
    ensures
        r@ == maker_and_name(opt_view(*maker), name@),
{
    let n = chars_of(name.as_str());
    match maker {
        Some(m) => {
            let mc = chars_of(m.as_str());
            if product_repeats_manufacturer(mc.as_slice(), n.as_slice()) {
                n
            } else {
                join_space(mc.as_slice(), n.as_slice())
            }
        },
        None => n,
    }
}

/// The device's interfaces, empty when the backend does not report any.
pub open spec fn interface_list_spec(d: UsbDevice) -> Seq<UsbInterface> {
    match d.interfaces {
        Some(v) => v@,
        None => seq![],
    }
}

/// A root hub has devpath "0".
pub open spec fn is_root_hub_spec(d: UsbDevice) -> bool {
    d.devpath@ == seq!['0']
}

/// "hub" as characters.
pub open spec fn hub_word() -> Seq<char> {
    seq!['h', 'u', 'b']
}

/// Whether two character slices are equal.
pub fn chars_eq(a: &[char], b: &[char]) -> (r: bool)
    ensures
        r == (a@ == b@),
{
    if a.len() != b.len() {
        return false;
    }
    let n = a.len();
    for i in 0..n
        invariant
            n == a@.len(),
            n == b@.len(),
            forall|j: int| 0 <= j < i ==> a@[j] == b@[j],
    {
        if a[i] != b[i] {
            return false;
        }
    }
    assert(a@ =~= b@);
    true
}

/// Distinct drivers of the interfaces (in first-seen order), leaving out "hub".
pub open spec fn unique_drivers_spec(ifaces: Seq<UsbInterface>) -> Seq<Seq<char>>
    decreases ifaces.len(),
{
    if ifaces.len() == 0 {
        seq![]
    } else {
        let prev = unique_drivers_spec(ifaces.drop_last());
        match ifaces.last().driver {
            Some(d) => if d@ != hub_word() && !prev.contains(d@) {
                prev.push(d@)
            } else {
                prev
            },
            None => prev,
        }
    }
}

/// The last piece of a devpath after its final '.'.
pub open spec fn last_segment(s: Seq<char>) -> Seq<char> {
    match rfind_char_spec(s, '.') {
        Some(i) => s.skip(i + 1),
        None => s,
    }
}

/// The port a device sits on: the number after the devpath's last '.', or
/// the whole devpath; none for a root hub or when it does not parse.
pub open spec fn port_number_spec(d: UsbDevice) -> Option<u16> {
    if is_root_hub_spec(d) {
        None
    } else {
        match parse_bounded_spec(last_segment(d.devpath@), 10, 0xffff) {
            Some(v) => Some(v as u16),
            None => None,
        }
    }
}

/// The numbers a list of pieces parses to as `u16`, skipping the pieces that
/// do not parse.
pub open spec fn parsed_u16s(pieces: Seq<Seq<char>>) -> Seq<u16>
    decreases pieces.len(),
{
    if pieces.len() == 0 {
        seq![]
    } else {
        let prev = parsed_u16s(pieces.drop_last());
        match parse_bounded_spec(pieces.last(), 10, 0xffff) {
            Some(v) => prev.push(v as u16),
            None => prev,
        }
    }
}

/// An optional name that contains `query` once Unicode-lowercased.
pub open spec fn name_matches(f: Option<String>, query: Seq<char>) -> bool {
    match f {
        Some(s) => contains_spec(unicode_lowercase(s@), query),
        None => false,
    }
}

/// Whether any of a device's four names or its interfaces' drivers contains
/// `query` once lowercased.
pub open spec fn matches_text_spec(d: UsbDevice, query: Seq<char>) -> bool {
    ||| name_matches(d.manufacturer, query)
    ||| name_matches(d.product, query)
    ||| name_matches(d.vendor_name, query)
    ||| name_matches(d.product_name, query)
    ||| exists|i: int|
        0 <= i < interface_list_spec(d).len() && name_matches(
            #[trigger] interface_list_spec(d)[i].driver,
            query,
        )
}

fn name_matches_exec(f: &Option<String>, query: &[char]) -> (r: bool)
    ensures
        r == name_matches(*f, query@),
{
    match f {
        Some(s) => {
            let low = to_lowercase(s.as_str());
            let lc = chars_of(low.as_str());
            contains(lc.as_slice(), query)
        },
        None => false,
    }
}

impl UsbDevice {
    /// Returns true if this is a root hub (devpath "0").
    pub fn is_root_hub(&self) -> (r: bool)
        ensures
            r == is_root_hub_spec(*self),
    {
        let p = chars_of(self.devpath.as_str());
        let r = p.len() == 1 && p[0] == '0';
        proof {
            if r {
                assert(p@ =~= seq!['0']);
            }
        }
        r
    }

    /// The device's interfaces, empty when the backend does not report any.
    /// Use the [`UsbDevice::interfaces`] field directly to tell "none" from
    /// "not available".
    pub fn interface_list(&self) -> (r: &[UsbInterface])
        ensures
            r@ == interface_list_spec(*self),
    {
        match &self.interfaces {
            Some(v) => v.as_slice(),
            None => &[],
        }
    }

    /// Best available display name for this device.
    pub fn display_name(&self) -> (r: String)
        ensures
            r@ == display_name_spec(*self),
    {
        // Prefer the device's own strings, then the usb.ids names
        let c = match &self.product {
            Some(p) => maker_and_name_exec(&self.manufacturer, p),
            None => match &self.product_name {
                Some(name) => maker_and_name_exec(&self.vendor_name, name),
                None => {
                    let id = id_chars(self.vendor_id, self.product_id);
                    match &self.vendor_name {
                        Some(v) => {
                            let vc = chars_of(v.as_str());
                            join_space(vc.as_slice(), id.as_slice())
                        },
                        None => id,
                    }
                },
            },
        };
        string_of(c.as_slice())
    }

    /// Unique driver names bound to this device (excluding "hub").
    pub fn unique_drivers(&self) -> (r: Vec<String>)
        ensures
            r@.map_values(|s: String| s@) == unique_drivers_spec(interface_list_spec(*self)),
    {
        let ifaces = self.interface_list();
        let hub = chars_of("hub");
        proof {
            reveal_strlit("hub");
            assert(hub@ =~= hub_word());
        }
        let mut unique: Vec<String> = Vec::new();
        let n = ifaces.len();
        for i in 0..n
            invariant
                n == ifaces@.len(),
                hub@ == hub_word(),
                unique@.map_values(|s: String| s@) == unique_drivers_spec(ifaces@.take(i as int)),
        {
            proof {
                assert(ifaces@.take(i + 1).drop_last() =~= ifaces@.take(i as int));
                assert(ifaces@.take(i + 1).last() == ifaces@[i as int]);
            }
            match &ifaces[i].driver {
                Some(drv) => {
                    let dc = chars_of(drv.as_str());
                    if !chars_eq(dc.as_slice(), hub.as_slice()) {
                        // Already listed?
                        let m = unique.len();
                        let mut seen = false;
                        for j in 0..m
                            invariant
                                m == unique@.len(),
                                seen == exists|k: int|
                                    0 <= k < j && unique@[k]@ == dc@,
                        {
                            let uc = chars_of(unique[j].as_str());
                            if chars_eq(uc.as_slice(), dc.as_slice()) {
                                seen = true;
                            }
                        }
                        proof {
                            let ghost prev = unique@.map_values(|s: String| s@);
                            if seen {
                                let k = choose|k: int| 0 <= k < m && unique@[k]@ == dc@;
                                assert(prev[k] == dc@);
                            } else {
                                assert forall|k: int| 0 <= k < prev.len() implies prev[k] != dc@ by {
                                    assert(prev[k] == unique@[k]@);
                                }
                            }
                        }
                        if !seen {
                            let copy = string_of(dc.as_slice());
                            unique.push(copy);
                            proof {
                                assert(unique@.map_values(|s: String| s@) =~= unique_drivers_spec(
                                    ifaces@.take(i as int),
                                ).push(dc@));
                            }
                        }
                    }
                },
                None => {},
            }
        }
        proof {
            assert(ifaces@.take(n as int) =~= ifaces@);
        }
        unique
    }

    /// The last port number from the devpath (for tree display).
    pub fn port_number(&self) -> (r: Option<u16>)
        ensures
            r == port_number_spec(*self),
    {
        if self.is_root_hub() {
            return None;
        }
        let p = chars_of(self.devpath.as_str());
        let seg = match rfind_char(p.as_slice(), '.') {
            Some(i) => {
                proof {
                    lemma_rfind_char_in_range(p@, '.');
                }
                copy_range(p.as_slice(), i + 1, p.len())
            },
            None => p,
        };
        assert(seg@ =~= last_segment(self.devpath@));
        parse_u16(seg.as_slice(), 10)
    }

    /// The devpath as numeric segments, for sorting ("1.10" after "1.2").
    pub fn devpath_segments(&self) -> (r: Vec<u16>)
        ensures
            r@ == parsed_u16s(split_spec(self.devpath@, '.')),
    {
        let p = chars_of(self.devpath.as_str());
        let pieces = split(p.as_slice(), '.');
        let mut r: Vec<u16> = Vec::new();
        let n = pieces.len();
        for i in 0..n
            invariant
                n == pieces@.len(),
                views(pieces@) == split_spec(self.devpath@, '.'),
                r@ == parsed_u16s(views(pieces@).take(i as int)),
        {
            proof {
                assert(views(pieces@).take(i + 1).drop_last() =~= views(pieces@).take(i as int));
                assert(views(pieces@).take(i + 1).last() == pieces@[i as int]@);
            }
            match parse_u16(pieces[i].as_slice(), 10) {
                Some(v) => r.push(v),
                None => {},
            }
        }
        proof {
            assert(views(pieces@).take(n as int) =~= views(pieces@));
        }
        r
    }

    /// Case-insensitive substring match against names and bound drivers.
    /// `query` must already be lowercase.
    pub fn matches_text(&self, query: &str) -> (r: bool)
        ensures
            r == matches_text_spec(*self, query@),
    {
        let q = chars_of(query);
        if name_matches_exec(&self.manufacturer, q.as_slice()) || name_matches_exec(
            &self.product,
            q.as_slice(),
        ) || name_matches_exec(&self.vendor_name, q.as_slice()) || name_matches_exec(
            &self.product_name,
            q.as_slice(),
        ) {
            return true;
        }
        let ifaces = self.interface_list();
        let n = ifaces.len();
        for i in 0..n
            invariant
                n == ifaces@.len(),
                ifaces@ == interface_list_spec(*self),
                q@ == query@,
                forall|j: int| 0 <= j < i ==> !name_matches(#[trigger] ifaces@[j].driver, query@),
        {
            if name_matches_exec(&ifaces[i].driver, q.as_slice()) {
                return true;
            }
        }
        false
    }
}

proof fn lemma_rfind_char_from_in_range(s: Seq<char>, c: char, i: int)
    ensures
        rfind_char_from(s, c, i) matches Some(k) ==> 0 <= k <= i && k < s.len() && s[k] == c,
    decreases i + 1,
{
    if 0 <= i < s.len() && s[i] != c {
        lemma_rfind_char_from_in_range(s, c, i - 1);
    }
}

/// A found character lies inside the string.
pub proof fn lemma_rfind_char_in_range(s: Seq<char>, c: char)
    ensures
        rfind_char_spec(s, c) matches Some(k) ==> 0 <= k < s.len() && s[k] == c,
{
    lemma_rfind_char_from_in_range(s, c, s.len() - 1);
}


// ---------------------------------------------------------------------------
// Port peer map
// ---------------------------------------------------------------------------

/// The characters of each (port, peer) pair.
pub open spec fn pair_views(s: Seq<(String, String)>) -> Seq<(Seq<char>, Seq<char>)> {
    s.map_values(|p: (String, String)| (p.0@, p.1@))
}

/// No key occurs twice.
pub open spec fn keys_distinct(s: Seq<(Seq<char>, Seq<char>)>) -> bool {
    forall|i: int, j: int| 0 <= i < j < s.len() ==> s[i].0 != s[j].0
}

/// The map a list of pairs describes, later pairs overriding earlier ones.
pub open spec fn map_of(s: Seq<(Seq<char>, Seq<char>)>) -> Map<Seq<char>, Seq<char>>
    decreases s.len(),
{
    if s.len() == 0 {
        Map::empty()
    } else {
        map_of(s.drop_last()).insert(s.last().0, s.last().1)
    }
}

/// The keys of `map_of(s)` are the first components of `s`, and with
/// distinct keys each maps to its own pair's value.
pub proof fn lemma_map_of(s: Seq<(Seq<char>, Seq<char>)>)
    requires
        keys_distinct(s),
    ensures
        forall|k: Seq<char>|
            #[trigger] map_of(s).contains_key(k) <==> exists|i: int| 0 <= i < s.len() && s[i].0 == k,
        forall|i: int| 0 <= i < s.len() ==> map_of(s)[#[trigger] s[i].0] == s[i].1,
    decreases s.len(),
{
    if s.len() > 0 {
        let t = s.drop_last();
        lemma_map_of(t);
        assert forall|k: Seq<char>| #[trigger] map_of(s).contains_key(k) <==> exists|i: int|
            0 <= i < s.len() && s[i].0 == k by {
            if map_of(s).contains_key(k) {
                if k == s.last().0 {
                    assert(s[s.len() - 1].0 == k);
                } else {
                    assert(map_of(t).contains_key(k));
                    let i = choose|i: int| 0 <= i < t.len() && t[i].0 == k;
                    assert(t[i] == s[i]);
                }
            }
            if exists|i: int| 0 <= i < s.len() && s[i].0 == k {
                let i = choose|i: int| 0 <= i < s.len() && s[i].0 == k;
                if i < t.len() {
                    assert(t[i] == s[i]);
                    assert(map_of(t).contains_key(k));
                }
            }
        }
        assert forall|i: int| 0 <= i < s.len() implies map_of(s)[#[trigger] s[i].0] == s[i].1 by {
            if i < t.len() {
                assert(t[i].0 == s[i].0);
                assert(s[i].0 != s.last().0);
            }
        }
    }
}

proof fn lemma_map_of_update(s: Seq<(Seq<char>, Seq<char>)>, i: int, v: Seq<char>)
    requires
        keys_distinct(s),
        0 <= i < s.len(),
    ensures
        keys_distinct(s.update(i, (s[i].0, v))),
        map_of(s.update(i, (s[i].0, v))) == map_of(s).insert(s[i].0, v),
{
    let k = s[i].0;
    let u = s.update(i, (k, v));
    assert(keys_distinct(u)) by {
        assert forall|a: int, b: int| 0 <= a < b < u.len() implies u[a].0 != u[b].0 by {
            assert(u[a].0 == s[a].0);
            assert(u[b].0 == s[b].0);
        }
    }
    lemma_map_of(s);
    lemma_map_of(u);
    assert forall|key: Seq<char>| map_of(u).contains_key(key) <==> map_of(s).insert(
        k,
        v,
    ).contains_key(key) by {
        if map_of(u).contains_key(key) {
            let j = choose|j: int| 0 <= j < u.len() && u[j].0 == key;
            assert(s[j].0 == key);
        }
        if map_of(s).contains_key(key) {
            let j = choose|j: int| 0 <= j < s.len() && s[j].0 == key;
            assert(u[j].0 == key);
        }
        if key == k {
            assert(u[i].0 == key);
        }
    }
    assert forall|key: Seq<char>| #[trigger] map_of(u).contains_key(key) implies map_of(u)[key]
        == map_of(s).insert(k, v)[key] by {
        let j = choose|j: int| 0 <= j < u.len() && u[j].0 == key;
        if j == i {
        } else {
            assert(s[j].0 == key);
            assert(u[j] == s[j]);
        }
    }
    assert(map_of(u) =~= map_of(s).insert(k, v));
}

/// Companion port links, e.g. "usb1-port3" <-> "usb2-port3": a map from
/// port name to the name of its peer port. Peered ports are the same
/// physical connector on the USB 2.0 and USB 3.x side of a controller or hub.
pub struct PeerMap {
    entries: Vec<(String, String)>,
}

impl PeerMap {
    #[verifier::type_invariant]
    spec fn keys_unique(self) -> bool {
        keys_distinct(pair_views(self.entries@))
    }

    /// The (port, peer) pairs in insertion order of their ports.
    pub closed spec fn pairs(self) -> Seq<(Seq<char>, Seq<char>)> {
        pair_views(self.entries@)
    }

    /// The port -> peer map.
    pub open spec fn map(self) -> Map<Seq<char>, Seq<char>> {
        map_of(self.pairs())
    }

    /// An empty map.
    pub fn new() -> (r: PeerMap)
        ensures
            r.pairs() == Seq::<(Seq<char>, Seq<char>)>::empty(),
            r.map() == Map::<Seq<char>, Seq<char>>::empty(),
    {
        let r = PeerMap { entries: Vec::new() };
        assert(r.pairs() =~= Seq::<(Seq<char>, Seq<char>)>::empty());
        r
    }

    /// Number of ports in the map.
    pub fn len(&self) -> (r: usize)
        ensures
            r == self.pairs().len(),
    {
        self.entries.len()
    }

    /// Whether the map holds no port.
    pub fn is_empty(&self) -> (r: bool)
        ensures
            r == (self.pairs().len() == 0),
    {
        self.entries.len() == 0
    }

    /// The port of the `i`-th pair.
    pub fn port_at(&self, i: usize) -> (r: &String)
        requires
            i < self.pairs().len(),
        ensures
            r@ == self.pairs()[i as int].0,
    {
        &self.entries[i].0
    }

    /// The peer of the `i`-th pair.
    pub fn peer_at(&self, i: usize) -> (r: &String)
        requires
            i < self.pairs().len(),
        ensures
            r@ == self.pairs()[i as int].1,
    {
        &self.entries[i].1
    }

    fn index_of(&self, key: &[char]) -> (r: Option<usize>)
        ensures
            r matches Some(i) ==> i < self.pairs().len() && self.pairs()[i as int].0 == key@,
            r is None ==> forall|i: int| 0 <= i < self.pairs().len() ==> self.pairs()[i].0 != key@,
    {
        let n = self.entries.len();
        for i in 0..n
            invariant
                n == self.pairs().len(),
                forall|j: int| 0 <= j < i ==> self.pairs()[j].0 != key@,
        {
            let kc = chars_of(self.entries[i].0.as_str());
            if chars_eq(kc.as_slice(), key) {
                return Some(i);
            }
        }
        None
    }

    /// The peer of `port`, if it has one.
    pub fn get(&self, port: &[char]) -> (r: Option<&String>)
        ensures
            r matches Some(v) ==> self.map().contains_key(port@) && self.map()[port@] == v@,
            r is None ==> !self.map().contains_key(port@),
    {
        proof {
            use_type_invariant(self);
            lemma_map_of(self.pairs());
        }
        match self.index_of(port) {
            Some(i) => Some(&self.entries[i].1),
            None => None,
        }
    }

    /// Records `peer` as the peer of `port`, replacing an earlier peer: a
    /// known port keeps its place in the pairs, a new one comes last.
    pub fn insert(&mut self, port: &str, peer: &str)
        ensures
            final(self).map() == old(self).map().insert(port@, peer@),
            forall|i: int|
                0 <= i < old(self).pairs().len() && (#[trigger] old(self).pairs()[i]).0 == port@
                    ==> final(self).pairs() == old(self).pairs().update(i, (port@, peer@)),
            (forall|i: int| 0 <= i < old(self).pairs().len() ==> (#[trigger] old(self).pairs()[i]).0 != port@)
                ==> final(self).pairs() == old(self).pairs().push((port@, peer@)),
    {
        proof {
            use_type_invariant(&*self);
            lemma_map_of(self.pairs());
        }
        let pc = chars_of(port);
        let ghost before = self.pairs();
        let entry = (string_of(pc.as_slice()), string_of(chars_of(peer).as_slice()));
        let found = self.index_of(pc.as_slice());
        let mut es: Vec<(String, String)> = Vec::new();
        std::mem::swap(&mut es, &mut self.entries);
        assert(pair_views(es@) == before);
        match found {
            Some(i) => {
                es.set(i, entry);
                proof {
                    assert(pair_views(es@) =~= before.update(i as int, (port@, peer@)));
                    lemma_map_of_update(before, i as int, peer@);
                }
            },
            None => {
                es.push(entry);
                proof {
                    assert(pair_views(es@) =~= before.push((port@, peer@)));
                    assert(before.push((port@, peer@)).drop_last() =~= before);
                    assert forall|a: int, b: int|
                        0 <= a < b < pair_views(es@).len() implies pair_views(es@)[a].0 != pair_views(
                        es@,
                    )[b].0 by {
                        if b < before.len() {
                            assert(pair_views(es@)[a] == before[a]);
                            assert(pair_views(es@)[b] == before[b]);
                        } else {
                            assert(pair_views(es@)[a] == before[a]);
                        }
                    }
                }
            },
        }
        self.entries = es;
    }
}

/// Result of a platform backend scan: all devices plus the port peer map.
/// This is the neutral contract both backends produce; everything
/// downstream consumes it unchanged.
pub struct Scan {
    pub devices: Vec<UsbDevice>,
    /// Companion port links (both directions). Empty where the platform
    /// already presents the merged physical topology.
    pub peers: PeerMap,
}

/// `b` is `a` with its driver sanitized.
pub open spec fn interface_scrubbed(a: UsbInterface, b: UsbInterface) -> bool {
    &&& b.number == a.number
    &&& b.class == a.class
    &&& b.subclass == a.subclass
    &&& b.protocol == a.protocol
    &&& b.num_endpoints == a.num_endpoints
    &&& opt_view(b.driver) == scrub_spec(opt_view(a.driver))
}

/// `b` is `a` with every device-supplied string sanitized: the four names,
/// serial, power, removability, PCI slot and the interface drivers. All
/// other fields are unchanged.
pub open spec fn device_scrubbed(a: UsbDevice, b: UsbDevice) -> bool {
    &&& b.node_key == a.node_key
    &&& b.bus == a.bus
    &&& b.devnum == a.devnum
    &&& b.devpath == a.devpath
    &&& b.vendor_id == a.vendor_id
    &&& b.product_id == a.product_id
    &&& opt_view(b.manufacturer) == scrub_spec(opt_view(a.manufacturer))
    &&& opt_view(b.product) == scrub_spec(opt_view(a.product))
    &&& opt_view(b.vendor_name) == scrub_spec(opt_view(a.vendor_name))
    &&& opt_view(b.product_name) == scrub_spec(opt_view(a.product_name))
    &&& opt_view(b.serial) == scrub_spec(opt_view(a.serial))
    &&& b.speed == a.speed
    &&& b.usb_version == a.usb_version
    &&& b.device_class == a.device_class
    &&& opt_view(b.max_power) == scrub_spec(opt_view(a.max_power))
    &&& b.num_interfaces == a.num_interfaces
    &&& opt_view(b.removable) == scrub_spec(opt_view(a.removable))
    &&& b.max_children == a.max_children
    &&& match (a.interfaces, b.interfaces) {
        (None, None) => true,
        (Some(x), Some(y)) => x@.len() == y@.len() && forall|i: int|
            0 <= i < x@.len() ==> interface_scrubbed(#[trigger] x@[i], y@[i]),
        _ => false,
    }
    &&& opt_view(b.pci_slot) == scrub_spec(opt_view(a.pci_slot))
    &&& b.parent_port == a.parent_port
    &&& b.port_capability_known == a.port_capability_known
}

fn scrub_interfaces(ifaces: Vec<UsbInterface>) -> (r: Vec<UsbInterface>)
    ensures
        r@.len() == ifaces@.len(),
        forall|i: int| 0 <= i < ifaces@.len() ==> interface_scrubbed(#[trigger] ifaces@[i], r@[i]),
{
    let mut rest = ifaces;
    let ghost orig = rest@;
    let mut out: Vec<UsbInterface> = Vec::new();
    while rest.len() > 0
        invariant
            out@.len() + rest@.len() == orig.len(),
            rest@ == orig.skip(out@.len() as int),
            forall|i: int| 0 <= i < out@.len() ==> interface_scrubbed(#[trigger] orig[i], out@[i]),
        decreases rest@.len(),
    {
        let mut iface = rest.remove(0);
        proof {
            assert(iface == orig[out@.len() as int]);
            assert(rest@ =~= orig.skip(out@.len() as int + 1));
        }
        scrub(&mut iface.driver);
        out.push(iface);
    }
    out
}

impl Scan {
    /// Strip control characters from every device-supplied string.
    ///
    /// Descriptor strings come from the device itself; a malicious one could
    /// otherwise inject terminal escape sequences into our output. This runs
    /// once at the platform seam so no backend can forget it. A field that
    /// sanitizes to nothing becomes `None`.
    pub fn sanitize_strings(&mut self)
        ensures
            final(self).devices@.len() == old(self).devices@.len(),
            forall|i: int|
                0 <= i < old(self).devices@.len() ==> device_scrubbed(
                    #[trigger] old(self).devices@[i],
                    final(self).devices@[i],
                ),
            final(self).peers == old(self).peers,
    {
        let mut rest: Vec<UsbDevice> = Vec::new();
        std::mem::swap(&mut rest, &mut self.devices);
        let ghost orig = rest@;
        let mut out: Vec<UsbDevice> = Vec::new();
        while rest.len() > 0
            invariant
                out@.len() + rest@.len() == orig.len(),
                rest@ == orig.skip(out@.len() as int),
                forall|i: int| 0 <= i < out@.len() ==> device_scrubbed(#[trigger] orig[i], out@[i]),
            decreases rest@.len(),
        {
            let mut dev = rest.remove(0);
            proof {
                assert(dev == orig[out@.len() as int]);
                assert(rest@ =~= orig.skip(out@.len() as int + 1));
            }
            scrub(&mut dev.manufacturer);
            scrub(&mut dev.product);
            scrub(&mut dev.vendor_name);
            scrub(&mut dev.product_name);
            scrub(&mut dev.serial);
            scrub(&mut dev.max_power);
            scrub(&mut dev.removable);
            scrub(&mut dev.pci_slot);
            let mut ifaces: Option<Vec<UsbInterface>> = None;
            std::mem::swap(&mut ifaces, &mut dev.interfaces);
            dev.interfaces = match ifaces {
                Some(list) => Some(scrub_interfaces(list)),
                None => None,
            };
            out.push(dev);
        }
        self.devices = out;
    }
}

} // verus!
