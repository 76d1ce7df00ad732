//! The name of the place at a point, from a reverse geocoding server.

use crate::json::{json_contents, member, member_of, text, text_member, Json};
use crate::text::{ascii_lowered, lowercase, same, to_lowercase};
use vstd::prelude::*;
use vstd::string::StrSliceExecFns;
use vstd::utf8::is_ascii_chars;

verus! {

/// The address at which the place at a point is asked for. The coordinates are given as
/// decimal numbers.
pub fn area_name_url(lat: &str, lon: &str) -> (url: String)
    ensures
        url@ == "https://nominatim.openstreetmap.org/reverse?format=jsonv2&lat="@ + lat@ + "&lon="@
            + lon@ + "&addressdetails=1"@,
{
    let mut url = "https://nominatim.openstreetmap.org/reverse?format=jsonv2&lat=".to_string();
    url.append(lat);
    url.append("&lon=");
    url.append(lon);
    url.append("&addressdetails=1");
    url
}

/// A name begins with the prefix "City of ", in letters of any case.
pub open spec fn has_city_prefix(name: Seq<char>) -> bool {
    name.len() >= 8 && lowercase(name.take(8)) == "city of "@
}

/// A name without the prefix "City of ".
pub open spec fn short_name(name: Seq<char>) -> Seq<char> {
    if has_city_prefix(name) {
        name.skip(8)
    } else {
        name
    }
}

/// Whether a name has the prefix is known of every name that begins with ASCII characters.
pub open spec fn prefix_is_plain(name: Seq<char>) -> bool {
    name.len() >= 8 && is_ascii_chars(name.take(8)) ==> (has_city_prefix(name)
        <==> ascii_lowered(name.take(8)) == "city of "@)
}

/// A name without its first eight characters, if those in lower case are the prefix
/// "city of ".
pub fn without_lowered_prefix(name: &str, lowered: &str) -> (short: String)
    ensures
        short@ == if name@.len() >= 8 && lowered@ == "city of "@ {
            name@.skip(8)
        } else {
            name@
        },
{
    let len = name.unicode_len();
    if len >= 8 && same(lowered, "city of ") {
        proof {
            assert(name@.subrange(8, len as int) == name@.skip(8));
        }
        name.substring_char(8, len).to_string()
    } else {
        name.to_string()
    }
}

/// A name without the prefix "City of ", which is found in letters of any case.
pub fn without_city_prefix(name: &str) -> (short: String)
    ensures
        short@ == short_name(name@),
        prefix_is_plain(name@),
{
    if name.unicode_len() < 8 {
        return name.to_string();
    }
    let head = name.substring_char(0, 8);
    proof {
        assert(name@.subrange(0, 8) == name@.take(8));
    }
    let lowered = to_lowercase(head);
    without_lowered_prefix(name, lowered.as_str())
}

/// The members of an address that name the area, the most wanted first.
pub open spec fn area_fields() -> Seq<Seq<char>> {
    seq!["city"@, "town"@, "village"@, "county"@, "borough"@, "suburb"@]
}

/// The text of the first of some members that has one.
pub open spec fn first_text(value: Json, names: Seq<Seq<char>>) -> Option<Seq<char>>
    decreases names.len(),
{
    if names.len() == 0 {
        None
    } else {
        match text_member(value, names[0]) {
            Some(found) => Some(found),
            None => first_text(value, names.drop_first()),
        }
    }
}

/// The full name of the area in a reply.
pub open spec fn full_area_name(reply: Json) -> Option<Seq<char>> {
    match member_of(reply, "address"@) {
        Some(address) => first_text(address, area_fields()),
        None => None,
    }
}

/// The text of the first of some members that has one.
fn find_text<'a>(value: &'a serde_json::Value, names: &Vec<&str>) -> (found: Option<&'a str>)
    ensures
        match found {
            Some(held) => first_text(json_contents(*value), names@.map_values(|n: &str| n@))
                == Some(held@),
            None => first_text(json_contents(*value), names@.map_values(|n: &str| n@)) is None,
        },
{
    let ghost all = names@.map_values(|n: &str| n@);
    let mut i: usize = 0;
    proof {
        assert(all.skip(0) == all);
    }
    while i < names.len()
        invariant
            i <= names@.len(),
            all == names@.map_values(|n: &str| n@),
            first_text(json_contents(*value), all) == first_text(
                json_contents(*value),
                all.skip(i as int),
            ),
        decreases names@.len() - i,
    {
        proof {
            assert(all.skip(i as int).drop_first() == all.skip(i + 1));
        }
        if let Some(inner) = member(value, names[i]) {
            if let Some(held) = text(inner) {
                return Some(held);
            }
        }
        i = i + 1;
    }
    None
}

/// The name of the area in the reply of a reverse geocoding server, without the prefix
/// "City of ".
pub fn area_name(reply: &serde_json::Value) -> (name: Option<String>)
    ensures
        match full_area_name(json_contents(*reply)) {
            Some(full) => {
                &&& name matches Some(short)
                &&& short@ == short_name(full)
                &&& prefix_is_plain(full)
            },
            None => name is None,
        },
{
    let fields = vec!["city", "town", "village", "county", "borough", "suburb"];
    proof {
        assert(fields@.map_values(|n: &str| n@) == area_fields());
    }
    let found = match member(reply, "address") {
        Some(address) => find_text(address, &fields),
        None => None,
    };
    match found {
        Some(full) => Some(without_city_prefix(full)),
        None => None,
    }
}

/// What came of asking for the place at a point.
pub enum AreaReply {
    /// A status that is none of success.
    Refused,
    /// A status of success, and why the body could not be read as JSON.
    Unreadable(String),
    /// A status of success, and what the body holds.
    Json(serde_json::Value),
}

/// The name of the area, if the server knows one, or the message of the failure.
pub fn read_area_reply(reply: AreaReply) -> (result: Result<Option<String>, String>)
    ensures
        match reply {
            AreaReply::Refused => result matches Ok(None),
            AreaReply::Unreadable(message) => result == Err::<Option<String>, String>(message),
            AreaReply::Json(body) => match full_area_name(json_contents(body)) {
                Some(full) => {
                    &&& result matches Ok(Some(short))
                    &&& short@ == short_name(full)
                    &&& prefix_is_plain(full)
                },
                None => result matches Ok(None),
            },
        },
{
    match reply {
        AreaReply::Refused => Ok(None),
        AreaReply::Unreadable(message) => Err(message),
        AreaReply::Json(body) => Ok(area_name(&body)),
    }
}

/// A JSON object has a text under a name.
pub open spec fn names_text(members: Map<Seq<char>, Json>, name: Seq<char>) -> bool {
    members.contains_key(name) && members[name] is Text
}

/// The area is named by the first of city, town, village, county, borough and suburb that
/// is a text in the address. What else the address holds makes no difference, and without
/// any of them, or without an address, the area has no name.
pub proof fn law_area_named_by_address(reply: Json)
    ensures
        ({
            let named = full_area_name(reply);
            &&& !(reply is Object && reply->Object_0.contains_key("address"@)) ==> named is None
            &&& reply is Object && reply->Object_0.contains_key("address"@)
                && !(reply->Object_0["address"@] is Object) ==> named is None
            &&& reply is Object && reply->Object_0.contains_key("address"@)
                && reply->Object_0["address"@] is Object ==> {
                let address = reply->Object_0["address"@]->Object_0;
                let city = names_text(address, "city"@);
                let town = names_text(address, "town"@);
                let village = names_text(address, "village"@);
                let county = names_text(address, "county"@);
                let borough = names_text(address, "borough"@);
                let suburb = names_text(address, "suburb"@);
                &&& city ==> named == Some(address["city"@]->Text_0)
                &&& !city && town ==> named == Some(address["town"@]->Text_0)
                &&& !city && !town && village ==> named == Some(address["village"@]->Text_0)
                &&& !city && !town && !village && county ==> named == Some(
                    address["county"@]->Text_0,
                )
                &&& !city && !town && !village && !county && borough ==> named == Some(
                    address["borough"@]->Text_0,
                )
                &&& !city && !town && !village && !county && !borough && suburb ==> named == Some(
                    address["suburb"@]->Text_0,
                )
                &&& !city && !town && !village && !county && !borough && !suburb ==> named is None
            }
        }),
{
    reveal_with_fuel(first_text, 7);
    let names = area_fields();
    assert(names.drop_first() =~= seq!["town"@, "village"@, "county"@, "borough"@, "suburb"@]);
    assert(names.drop_first().drop_first() =~= seq![
        "village"@,
        "county"@,
        "borough"@,
        "suburb"@,
    ]);
    assert(names.drop_first().drop_first().drop_first() =~= seq!["county"@, "borough"@, "suburb"@]);
    assert(names.drop_first().drop_first().drop_first().drop_first() =~= seq![
        "borough"@,
        "suburb"@,
    ]);
    assert(names.drop_first().drop_first().drop_first().drop_first().drop_first() =~= seq![
        "suburb"@,
    ]);
    assert(names.drop_first().drop_first().drop_first().drop_first().drop_first().drop_first()
        =~= Seq::<Seq<char>>::empty());
}

/// A short name is the whole name, or all of it but its first eight characters, which are
/// "city of " in lower case.
pub proof fn law_short_name_is_the_end(name: Seq<char>)
    ensures
        name.len() >= 8 && lowercase(name.take(8)) == "city of "@ ==> name == name.take(8)
            + short_name(name),
        !(name.len() >= 8 && lowercase(name.take(8)) == "city of "@) ==> short_name(name) == name,
{
    if name.len() >= 8 {
        assert(name =~= name.take(8) + name.skip(8));
    }
}

} // verus!
