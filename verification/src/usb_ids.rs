//! The `usb.ids` database: vendor and product names by ID.
use vstd::prelude::*;

use std::collections::HashMap;

use crate::text::{
    chars_of, copy_range, lines, lines_spec, parse_bounded_spec, parse_u16, string_of, trim,
    trim_spec, trim_start, trim_start_spec, views,
};

verus! {

broadcast use vstd::std_specs::hash::group_hash_axioms;

/// USB ID database mapping vendor/product IDs to human-readable names.
pub struct UsbIds {
    vendors: HashMap<u16, String>,
    products: HashMap<u32, String>,
}

/// The key under which a (vendor, product) pair is stored.
pub open spec fn product_key(vendor_id: u16, product_id: u16) -> u32 {
    (vendor_id as nat * 65536 + product_id as nat) as u32
}

/// Distinct (vendor, product) pairs are stored under distinct keys.
pub proof fn lemma_product_key_injective(v1: u16, p1: u16, v2: u16, p2: u16)
    requires
        product_key(v1, p1) == product_key(v2, p2),
    ensures
        v1 == v2,
        p1 == p2,
{
    assert(v1 as nat * 65536 + p1 as nat <= 0xffff_ffff) by (nonlinear_arith)
        requires
            v1 <= 0xffff,
            p1 <= 0xffff,
    ;
    assert(v2 as nat * 65536 + p2 as nat <= 0xffff_ffff) by (nonlinear_arith)
        requires
            v2 <= 0xffff,
            p2 <= 0xffff,
    ;
    assert(v1 as nat * 65536 + p1 as nat == v2 as nat * 65536 + p2 as nat);
    assert(v1 == v2 && p1 == p2) by (nonlinear_arith)
        requires
            v1 as nat * 65536 + p1 as nat == v2 as nat * 65536 + p2 as nat,
            p1 < 65536,
            p2 < 65536,
    ;
}

/// The characters of each name in a map.
pub open spec fn names16(m: Map<u16, String>) -> Map<u16, Seq<char>> {
    m.map_values(|s: String| s@)
}

/// The characters of each name in a map.
pub open spec fn names32(m: Map<u32, String>) -> Map<u32, Seq<char>> {
    m.map_values(|s: String| s@)
}

/// State of reading `usb.ids` line by line: vendor names, product names by
/// [`product_key`], the vendor whose products follow, and whether the class
/// section has been reached.
pub type IdsState = (Map<u16, Seq<char>>, Map<u32, Seq<char>>, Option<u16>, bool);

/// An "XXXX  name" line: the first four characters are ASCII and parse as a
/// hex `u16`, and the rest, trimmed, is a non-empty name.
pub open spec fn parse_id_line_spec(line: Seq<char>) -> Option<(u16, Seq<char>)> {
    if line.len() >= 4 && forall|i: int| 0 <= i < 4 ==> (line[i] as u32) < 0x80 {
        match parse_bounded_spec(line.take(4), 16, 0xffff) {
            Some(id) => if trim_spec(line.skip(4)).len() == 0 {
                None
            } else {
                Some((id as u16, trim_spec(line.skip(4))))
            },
            None => None,
        }
    } else {
        None
    }
}

/// The state after reading one more line.
pub open spec fn ids_step(st: IdsState, line: Seq<char>) -> IdsState {
    let (vendors, products, current, done) = st;
    if done {
        st
    } else if line.len() == 0 || line[0] == '#' {
        // comments and empty lines
        st
    } else if line.len() >= 2 && line[0] == 'C' && line[1] == ' ' {
        // class definitions: nothing more to read
        (vendors, products, current, true)
    } else if line[0] == '\t' && !(line.len() >= 2 && line[1] == '\t') {
        // product line, under the current vendor
        match (current, parse_id_line_spec(trim_start_spec(line))) {
            (Some(vid), Some((pid, name))) => (
                vendors,
                products.insert(product_key(vid, pid), name),
                current,
                done,
            ),
            _ => st,
        }
    } else if line[0] != '\t' {
        // vendor line
        match parse_id_line_spec(line) {
            Some((vid, name)) => (vendors.insert(vid, name), products, Some(vid), done),
            None => (vendors, products, None, done),
        }
    } else {
        // deeper levels (interfaces) carry no names we keep
        st
    }
}

/// The state after reading a sequence of lines.
pub open spec fn ids_read(lines: Seq<Seq<char>>) -> IdsState
    decreases lines.len(),
{
    if lines.len() == 0 {
        (Map::empty(), Map::empty(), None, false)
    } else {
        ids_step(ids_read(lines.drop_last()), lines.last())
    }
}

/// Parse an "XXXX  name" line into ID and name. Lines with multi-byte
/// characters among the first four are skipped, not panicked on.
pub fn parse_id_line(line: &[char]) -> (r: Option<(u16, String)>)
    ensures
        r matches Some((id, name)) ==> parse_id_line_spec(line@) == Some((id, name@)),
        r is None ==> parse_id_line_spec(line@) is None,
{
    if line.len() < 4 {
        return None;
    }
    let mut i: usize = 0;
    while i < 4
        invariant
            4 <= line@.len(),
            i <= 4,
            forall|j: int| 0 <= j < i ==> (line@[j] as u32) < 0x80,
        decreases 4 - i,
    {
        if (line[i] as u32) >= 0x80 {
            return None;
        }
        i = i + 1;
    }
    let head = copy_range(line, 0, 4);
    assert(head@ =~= line@.take(4));
    let id = match parse_u16(head.as_slice(), 16) {
        Some(id) => id,
        None => return None,
    };
    let rest = copy_range(line, 4, line.len());
    assert(rest@ =~= line@.skip(4));
    let name = trim(rest.as_slice());
    if name.len() == 0 {
        return None;
    }
    Some((id, string_of(name.as_slice())))
}

impl UsbIds {
    /// Vendor names by vendor ID.
    pub closed spec fn vendor_map(self) -> Map<u16, Seq<char>> {
        names16(self.vendors@)
    }

    /// Product names by [`product_key`].
    pub closed spec fn product_map(self) -> Map<u32, Seq<char>> {
        names32(self.products@)
    }

    /// An empty database (no names). Used when no `usb.ids` is available and in
    /// tests that need a hermetic lookup.
    pub fn empty() -> (r: Self)
        ensures
            r.vendor_map() == Map::<u16, Seq<char>>::empty(),
            r.product_map() == Map::<u32, Seq<char>>::empty(),
    {
        let r = UsbIds { vendors: HashMap::new(), products: HashMap::new() };
        assert(r.vendor_map() =~= Map::<u16, Seq<char>>::empty());
        assert(r.product_map() =~= Map::<u32, Seq<char>>::empty());
        r
    }

    /// Reads the text of a `usb.ids` file: vendor lines "VVVV  name", product
    /// lines "\tPPPP  name" under them; comments and blank lines are skipped
    /// and reading stops at the class section ("C ...").
    pub fn parse(content: &str) -> (r: Self)
        ensures
            r.vendor_map() == ids_read(lines_spec(content@)).0,
            r.product_map() == ids_read(lines_spec(content@)).1,
    {
        let cs = chars_of(content);
        let ls = lines(cs.as_slice());
        let mut vendors: HashMap<u16, String> = HashMap::new();
        let mut products: HashMap<u32, String> = HashMap::new();
        let mut current: Option<u16> = None;
        let mut done = false;
        let n = ls.len();
        assert(names16(vendors@) =~= Map::<u16, Seq<char>>::empty());
        assert(names32(products@) =~= Map::<u32, Seq<char>>::empty());
        assert(views(ls@).take(0) =~= Seq::<Seq<char>>::empty());
        for k in 0..n
            invariant
                n == ls@.len(),
                views(ls@) == lines_spec(content@),
                ids_read(views(ls@).take(k as int)) == (names16(vendors@), names32(products@), current, done),
        {
            let ghost before = (names16(vendors@), names32(products@), current, done);
            proof {
                assert(views(ls@).take(k + 1).drop_last() =~= views(ls@).take(k as int));
                assert(views(ls@).take(k + 1).last() == ls@[k as int]@);
            }
            let line = ls[k].as_slice();
            if done || line.len() == 0 || line[0] == '#' {
            } else if line.len() >= 2 && line[0] == 'C' && line[1] == ' ' {
                done = true;
            } else if line[0] == '\t' && !(line.len() >= 2 && line[1] == '\t') {
                let t = trim_start(line);
                match current {
                    Some(vid) => match parse_id_line(t.as_slice()) {
                        Some((pid, name)) => {
                            let key: u32 = (vid as u32) * 65536 + (pid as u32);
                            let ghost nv = name@;
                            products.insert(key, name);
                            proof {
                                assert(names32(products@) =~= before.1.insert(product_key(vid, pid), nv));
                            }
                        },
                        None => {},
                    },
                    None => {},
                }
            } else if line[0] != '\t' {
                match parse_id_line(line) {
                    Some((vid, name)) => {
                        let ghost nv = name@;
                        vendors.insert(vid, name);
                        current = Some(vid);
                        proof {
                            assert(names16(vendors@) =~= before.0.insert(vid, nv));
                        }
                    },
                    None => {
                        current = None;
                    },
                }
            }
        }
        proof {
            assert(views(ls@).take(n as int) =~= views(ls@));
        }
        UsbIds { vendors, products }
    }

    /// The name of a vendor.
    pub fn vendor_name(&self, vendor_id: u16) -> (r: Option<&str>)
        ensures
            r matches Some(s) ==> self.vendor_map().contains_key(vendor_id) && self.vendor_map()[vendor_id] == s@,
            r is None ==> !self.vendor_map().contains_key(vendor_id),
    {
        match self.vendors.get(&vendor_id) {
            Some(s) => Some(s.as_str()),
            None => None,
        }
    }

    /// The name of a vendor's product.
    pub fn product_name(&self, vendor_id: u16, product_id: u16) -> (r: Option<&str>)
        ensures
            r matches Some(s) ==> self.product_map().contains_key(product_key(vendor_id, product_id))
                && self.product_map()[product_key(vendor_id, product_id)] == s@,
            r is None ==> !self.product_map().contains_key(product_key(vendor_id, product_id)),
    {
        let key: u32 = (vendor_id as u32) * 65536 + (product_id as u32);
        match self.products.get(&key) {
            Some(s) => Some(s.as_str()),
            None => None,
        }
    }
}

} // verus!
