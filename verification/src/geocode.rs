//! The place name in a reply of the reverse-geocoding service.

use crate::json::{member, parse, text};
use crate::text::joined;
use vstd::prelude::*;

verus! {

/// The first of two texts that is there.
pub open spec fn first_of(a: Option<Seq<char>>, b: Option<Seq<char>>) -> Option<Seq<char>> {
    if a is Some {
        a
    } else {
        b
    }
}

/// The place of an address: locality and country, joined by a comma; either
/// alone where the other is missing; else the display name.
pub open spec fn place_text(
    locality: Option<Seq<char>>,
    country: Option<Seq<char>>,
    display_name: Option<Seq<char>>,
) -> Option<Seq<char>> {
    match (locality, country) {
        (Some(l), Some(c)) => Some(l + ", "@ + c),
        (Some(l), None) => Some(l),
        (None, Some(c)) => Some(c),
        (None, None) => display_name,
    }
}

/// What an optional string holds.
pub open spec fn optional_view(s: Option<String>) -> Option<Seq<char>> {
    match s {
        Some(s) => Some(s@),
        None => None,
    }
}

/// The place of an address.
pub fn compose_place(
    locality: Option<String>,
    country: Option<String>,
    display_name: Option<String>,
) -> (r: Option<String>)
    ensures
        optional_view(r) == place_text(
            optional_view(locality),
            optional_view(country),
            optional_view(display_name),
        ),
{
    match locality {
        Some(l) => match country {
            Some(c) => Some(joined(&joined(&l, ", "), &c)),
            None => Some(l),
        },
        None => match country {
            Some(c) => Some(c),
            None => display_name,
        },
    }
}

/// The locality of an address: the city, else the town, the village, the
/// municipality or the county.
pub open spec fn locality_of(address: crate::json::JsonTree) -> Option<Seq<char>> {
    first_of(
        address.member("city"@).text(),
        first_of(
            address.member("town"@).text(),
            first_of(
                address.member("village"@).text(),
                first_of(
                    address.member("municipality"@).text(),
                    address.member("county"@).text(),
                ),
            ),
        ),
    )
}

/// The place that a reply names, if it is JSON and names one.
pub open spec fn place_of_reply(reply: Result<crate::json::JsonTree, Seq<char>>) -> Option<
    Seq<char>,
> {
    match reply {
        Ok(tree) => {
            let address = tree.member("address"@);
            place_text(
                locality_of(address),
                address.member("country"@).text(),
                tree.member("display_name"@).text(),
            )
        },
        Err(_) => None,
    }
}

fn locality(address: &serde_json::Value) -> (r: Option<String>)
    ensures
        optional_view(r) == locality_of(crate::json::json_tree(*address)),
{
    if let Some(s) = text(member(address, "city")) {
        return Some(s);
    }
    if let Some(s) = text(member(address, "town")) {
        return Some(s);
    }
    if let Some(s) = text(member(address, "village")) {
        return Some(s);
    }
    if let Some(s) = text(member(address, "municipality")) {
        return Some(s);
    }
    text(member(address, "county"))
}

/// The place named by the body of a reply of the reverse-geocoding service.
pub fn reverse_geocode(body: &[u8]) -> (r: Option<String>)
    ensures
        optional_view(r) == place_of_reply(crate::json::parsed_json(body@)),
{
    match parse(body) {
        Ok(data) => {
            let address = member(&data, "address");
            compose_place(
                locality(address),
                text(member(address, "country")),
                text(member(&data, "display_name")),
            )
        },
        Err(_) => None,
    }
}

/// What the service is told about who asks.
pub const USER_AGENT: &'static str = "cs-imageindex/0.1 (+https://github.com/guenther-alka/cs-imageindex)";

/// The seconds that the service has for its reply.
pub const GEOCODE_TIMEOUT_SECS: u64 = 10;

/// The least time between two requests that the service allows, in
/// milliseconds.
pub const MIN_INTERVAL_MS: u64 = 1000;

/// How many milliseconds to wait before a request.
pub open spec fn pause(since_last: Option<u64>) -> int {
    match since_last {
        Some(t) => if t < MIN_INTERVAL_MS {
            MIN_INTERVAL_MS - t
        } else {
            0
        },
        None => 0,
    }
}

/// How many milliseconds to wait before a request, where the last one was made
/// `since_last` milliseconds ago, if there was one: no longer than it takes to
/// keep the interval.
pub fn pause_before(since_last: Option<u64>) -> (ms: u64)
    ensures
        match since_last {
            Some(t) => if t < MIN_INTERVAL_MS {
                t + ms == MIN_INTERVAL_MS
            } else {
                ms == 0
            },
            None => ms == 0,
        },
        ms == pause(since_last),
{
    match since_last {
        Some(t) => if t < MIN_INTERVAL_MS {
            MIN_INTERVAL_MS - t
        } else {
            0
        },
        None => 0,
    }
}

/// The address at which the service tells what place is at a position.
pub open spec fn reverse_address(lat: Seq<char>, lon: Seq<char>) -> Seq<char> {
    "https://nominatim.openstreetmap.org/reverse?format=json&lat="@ + lat + "&lon="@ + lon
        + "&zoom=10&addressdetails=1"@
}

/// The address at which the service tells what place is at a position, whose
/// coordinates are decimal numbers as text.
pub fn reverse_url(lat: &str, lon: &str) -> (url: String)
    ensures
        url@ == "https://nominatim.openstreetmap.org/reverse?format=json&lat="@ + lat@ + "&lon="@
            + lon@ + "&zoom=10&addressdetails=1"@,
        url@ == reverse_address(lat@, lon@),
{
    let url = joined("https://nominatim.openstreetmap.org/reverse?format=json&lat=", lat);
    let url = joined(&joined(&url, "&lon="), lon);
    joined(&url, "&zoom=10&addressdetails=1")
}

/// Two requests to the service lie at least a second apart, and no longer than
/// they have to.
pub proof fn law_requests_lie_apart(since_last: u64)
    ensures
        since_last + pause(Some(since_last)) >= 1000,
        pause(Some(since_last)) > 0 ==> since_last + pause(Some(since_last)) == 1000,
        pause(Some(since_last)) >= 0,
        pause(None) == 0,
{
}

/// The service is asked for the latitude under `lat` and for the longitude under
/// `lon`, so positions with other numbers are asked for elsewhere.
pub proof fn law_address_gives_the_position(lat: Seq<char>, lon: Seq<char>)
    ensures
        ({
            let url = reverse_address(lat, lon);
            let n = lat.len() as int;
            let m = lon.len() as int;
            &&& url.take(60) == "https://nominatim.openstreetmap.org/reverse?format=json&lat="@
            &&& url.subrange(60, 60 + n) == lat
            &&& url.subrange(60 + n, 65 + n) == "&lon="@
            &&& url.subrange(65 + n, 65 + n + m) == lon
            &&& url.skip(65 + n + m) == "&zoom=10&addressdetails=1"@
        }),
{
    reveal_strlit("https://nominatim.openstreetmap.org/reverse?format=json&lat=");
    reveal_strlit("&lon=");
    reveal_strlit("&zoom=10&addressdetails=1");
    let url = reverse_address(lat, lon);
    let n = lat.len() as int;
    let m = lon.len() as int;
    assert(url.take(60) =~= "https://nominatim.openstreetmap.org/reverse?format=json&lat="@);
    assert(url.subrange(60, 60 + n) =~= lat);
    assert(url.subrange(60 + n, 65 + n) =~= "&lon="@);
    assert(url.subrange(65 + n, 65 + n + m) =~= lon);
    assert(url.skip(65 + n + m) =~= "&zoom=10&addressdetails=1"@);
}

/// A place is its city, town, village, municipality or county, the first of these
/// that the address has, with the country behind it; either alone where the other
/// is missing; the display name where both are; and none where that is missing
/// too.
pub proof fn law_place_is_locality_and_country(
    tree: crate::json::JsonTree,
    here: Seq<char>,
    country: Seq<char>,
    shown: Seq<char>,
)
    ensures
        ({
            let address = tree.member("address"@);
            let is = |key: Seq<char>| address.member(key) == crate::json::JsonTree::Text(here);
            let no = |key: Seq<char>| !(address.member(key) is Text);
            let local = {
                ||| is("city"@)
                ||| no("city"@) && is("town"@)
                ||| no("city"@) && no("town"@) && is("village"@)
                ||| no("city"@) && no("town"@) && no("village"@) && is("municipality"@)
                ||| no("city"@) && no("town"@) && no("village"@) && no("municipality"@) && is(
                    "county"@,
                )
            };
            let nowhere = no("city"@) && no("town"@) && no("village"@) && no("municipality"@) && no(
                "county"@,
            );
            let abroad = address.member("country"@) == crate::json::JsonTree::Text(country);
            let place = place_of_reply(Ok(tree));
            &&& local && abroad ==> place == Some(here + seq![',', ' '] + country)
            &&& local && no("country"@) ==> place == Some(here)
            &&& nowhere && abroad ==> place == Some(country)
            &&& nowhere && no("country"@) && tree.member("display_name"@)
                == crate::json::JsonTree::Text(shown) ==> place == Some(shown)
            &&& nowhere && no("country"@) && !(tree.member("display_name"@) is Text)
                ==> place is None
        }),
        forall|e: Seq<char>| #[trigger] place_of_reply(Err(e)) is None,
{
    reveal_strlit(", ");
    assert(", "@ =~= seq![',', ' ']);
}

} // verus!
