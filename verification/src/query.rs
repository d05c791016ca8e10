//! Device filters: `vendor:product` ID filters and free-form queries.
use vstd::prelude::*;

use crate::device::{matches_text_spec, UsbDevice};
use crate::text::{
    chars_of, copy_range, find_char, find_char_spec, parse_bounded_spec, parse_u16, to_lowercase,
    unicode_lowercase,
};

verus! {

/// A `vendor:product` ID filter where either side may be a wildcard.
#[derive(Clone, Copy)]
pub struct IdFilter {
    pub vendor: Option<u16>,
    pub product: Option<u16>,
}

/// Whether a device passes an ID filter: every side that is set equals the
/// device's ID.
pub open spec fn id_matches_spec(f: IdFilter, dev: UsbDevice) -> bool {
    (f.vendor matches Some(v) ==> dev.vendor_id == v) && (f.product matches Some(p) ==> dev.product_id
        == p)
}

impl IdFilter {
    /// Whether `dev` has the filtered vendor and product IDs.
    pub fn matches(self, dev: &UsbDevice) -> (r: bool)
        ensures
            r == id_matches_spec(self, *dev),
    {
        let v_ok = match self.vendor {
            Some(vid) => dev.vendor_id == vid,
            None => true,
        };
        let p_ok = match self.product {
            Some(pid) => dev.product_id == pid,
            None => true,
        };
        v_ok && p_ok
    }
}

/// Each side of an ID filter that is set must agree: a device whose vendor
/// or product ID differs from a set side never passes, and a device that
/// agrees with every set side always does.
pub proof fn lemma_id_filter_checks_both_sides(f: IdFilter, dev: UsbDevice)
    ensures
        f.vendor matches Some(v) && dev.vendor_id != v ==> !id_matches_spec(f, dev),
        f.product matches Some(p) && dev.product_id != p ==> !id_matches_spec(f, dev),
        (f.vendor is None || f.vendor == Some(dev.vendor_id)) && (f.product is None || f.product == Some(
            dev.product_id,
        )) ==> id_matches_spec(f, dev),
{
}

/// One side of an ID filter: empty is a wildcard, otherwise a hex `u16`.
pub open spec fn filter_side_spec(part: Seq<char>) -> Option<Option<u16>> {
    if part.len() == 0 {
        Some(None)
    } else {
        match parse_bounded_spec(part, 16, 0xffff) {
            Some(v) => Some(Some(v as u16)),
            None => None,
        }
    }
}

/// A `vendor:product` filter: the text up to the first ':' and the text
/// after it each parse as a side, and not both sides are wildcards.
pub open spec fn parse_device_filter_spec(s: Seq<char>) -> Option<IdFilter> {
    match find_char_spec(s, ':') {
        Some(i) => match (filter_side_spec(s.take(i)), filter_side_spec(s.skip(i + 1))) {
            (Some(vendor), Some(product)) => if vendor is None && product is None {
                None
            } else {
                Some(IdFilter { vendor, product })
            },
            _ => None,
        },
        None => None,
    }
}

fn parse_side(part: &[char]) -> (r: Option<Option<u16>>)
    ensures
        r == filter_side_spec(part@),
{
    if part.len() == 0 {
        Some(None)
    } else {
        match parse_u16(part, 16) {
            Some(v) => Some(Some(v)),
            None => None,
        }
    }
}

/// Parses a `vendor:product` filter where either side may be empty (a
/// wildcard), e.g. "046d:c52b", "046d:", ":c52b". A lone ":" would match
/// everything and is rejected as a mistake.
pub fn parse_device_filter(s: &str) -> (r: Option<IdFilter>)
    ensures
        r == parse_device_filter_spec(s@),
{
    let cs = chars_of(s);
    let i = match find_char(cs.as_slice(), ':') {
        Some(i) => i,
        None => return None,
    };
    let vendor_part = copy_range(cs.as_slice(), 0, i);
    let product_part = copy_range(cs.as_slice(), i + 1, cs.len());
    assert(vendor_part@ =~= s@.take(i as int));
    assert(product_part@ =~= s@.skip(i + 1));
    let vendor = match parse_side(vendor_part.as_slice()) {
        Some(v) => v,
        None => return None,
    };
    let product = match parse_side(product_part.as_slice()) {
        Some(p) => p,
        None => return None,
    };
    // ":" alone would match everything — treat it as a mistake
    if vendor.is_none() && product.is_none() {
        return None;
    }
    Some(IdFilter { vendor, product })
}

/// A free-form query: a `vendor:product` ID if it parses as one, otherwise a
/// name search.
pub enum Query {
    Id(IdFilter),
    Name(String),
}

/// What a query string means: an ID filter if it parses as one, else a
/// search for its lowercase form.
pub open spec fn query_parse_spec(s: Seq<char>, q: Query) -> bool {
    match parse_device_filter_spec(s) {
        Some(f) => q == Query::Id(f),
        None => q matches Query::Name(name) && name@ == unicode_lowercase(s),
    }
}

/// Whether a device satisfies a query.
pub open spec fn query_matches_spec(q: Query, dev: UsbDevice) -> bool {
    match q {
        Query::Id(f) => id_matches_spec(f, dev),
        Query::Name(name) => matches_text_spec(dev, name@),
    }
}

impl Query {
    /// Reads a query: an ID filter if `s` parses as one, otherwise a
    /// case-insensitive name search.
    pub fn parse(s: &str) -> (r: Self)
        ensures
            query_parse_spec(s@, r),
    {
        match parse_device_filter(s) {
            Some(f) => Query::Id(f),
            None => Query::Name(to_lowercase(s)),
        }
    }

    /// Whether `dev` satisfies the query.
    pub fn matches(&self, dev: &UsbDevice) -> (r: bool)
        ensures
            r == query_matches_spec(*self, *dev),
    {
        match self {
            Query::Id(filter) => filter.matches(dev),
            Query::Name(query) => dev.matches_text(query.as_str()),
        }
    }
}


/// The filters of one listing: an optional ID filter and an optional query,
/// both of which a device must pass.
pub struct DeviceFilter {
    pub id: Option<IdFilter>,
    pub query: Option<Query>,
}

/// A device passes every filter that is set.
pub open spec fn device_filter_spec(f: DeviceFilter, d: UsbDevice) -> bool {
    (f.id matches Some(i) ==> id_matches_spec(i, d)) && (f.query matches Some(q)
        ==> query_matches_spec(q, d))
}

impl DeviceFilter {
    /// Whether any filter is set.
    pub fn is_active(&self) -> (r: bool)
        ensures
            r == (self.id is Some || self.query is Some),
    {
        self.id.is_some() || self.query.is_some()
    }

    /// Whether `dev` passes every filter that is set.
    pub fn matches(&self, dev: &UsbDevice) -> (r: bool)
        ensures
            r == device_filter_spec(*self, *dev),
    {
        let id_ok = match &self.id {
            Some(f) => f.matches(dev),
            None => true,
        };
        let q_ok = match &self.query {
            Some(q) => q.matches(dev),
            None => true,
        };
        id_ok && q_ok
    }
}

} // verus!
