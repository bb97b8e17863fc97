//! Geocoding result records, and the rules applied to them.
use vstd::prelude::*;

verus! {

/// The address parts of a geocoding result; each may be absent.
#[derive(Debug)]
pub struct Address {
    pub administrative: Option<String>,
    pub town: Option<String>,
    pub county: Option<String>,
    pub state: Option<String>,
    pub postcode: Option<String>,
    pub country: Option<String>,
    pub country_code: Option<String>,
}

/// One geocoding result: coordinates (as the service writes them), names,
/// address and bounding box.
#[derive(Debug)]
pub struct Location {
    pub lat: String,
    pub lon: String,
    pub addresstype: Option<String>,
    pub name: Option<String>,
    pub display_name: Option<String>,
    pub address: Address,
    pub boundingbox: Vec<String>,
}

/// A result is kept when it has both a name and a display name.
pub open spec fn is_named(l: Location) -> bool {
    l.name is Some && l.display_name is Some
}

/// Keeps the named results, in the order given.
pub fn filter_named(locations: Vec<Location>) -> (r: Vec<Location>)
    ensures
        r@ == locations@.filter(|l: Location| is_named(l)),
{
    let ghost all = locations@;
    let mut kept: Vec<Location> = Vec::new();
    for loc in it: locations.into_iter()
        invariant
            it.seq() == all,
            kept@ == all.take(it.index() as int).filter(|l: Location| is_named(l)),
    {
        proof {
            reveal(Seq::filter);
            assert(all.take(it.index() + 1).drop_last() =~= all.take(it.index() as int));
        }
        if loc.name.is_some() && loc.display_name.is_some() {
            kept.push(loc);
        }
    }
    assert(all.take(all.len() as int) =~= all);
    kept
}

/// The search endpoint of the geocoding service, up to the query.
pub const SEARCH_PREFIX: &'static str =
    "https://nominatim.openstreetmap.org/search?addressdetails=1&q=";

/// What follows the query in a search request.
pub const SEARCH_SUFFIX: &'static str = "&format=jsonv2&limit=1";

/// The search request for an already encoded query.
pub fn search_url(encoded_query: &str) -> (r: String)
    ensures
        r@ == SEARCH_PREFIX@ + encoded_query@ + SEARCH_SUFFIX@,
{
    let mut r = String::from_str(SEARCH_PREFIX);
    r.append(encoded_query);
    r.append(SEARCH_SUFFIX);
    r
}

} // verus!
