//! Asking Overpass servers: the query, the request, and what is made of a reply.

use crate::text::{
    append_decimal, ascii_lowered, contains, contains_text, decimal, lowercase,
    occurs_at, same, to_lowercase,
};
use vstd::prelude::*;
use vstd::utf8::{decode_utf8, is_ascii_chars, valid_utf8};

verus! {

/// How long a server may work on a query, in seconds.
pub const OVERPASS_TIMEOUT_SECS: u64 = 360;

/// A message in lower case speaks of a failure that a smaller area may avoid.
pub open spec fn error_calls_for_split(lowered: Seq<char>) -> bool {
    ||| contains_text(lowered, "timed out"@)
    ||| contains_text(lowered, "out of memory"@)
    ||| contains_text(lowered, "response code: 429"@)
    ||| contains_text(lowered, "response code: 502"@)
    ||| contains_text(lowered, "response code: 503"@)
    ||| contains_text(lowered, "response code: 504"@)
}

/// A remark in lower case speaks of a query that a smaller area may let through.
pub open spec fn remark_calls_for_split(lowered: Seq<char>) -> bool {
    ||| contains_text(lowered, "out of memory"@)
    ||| contains_text(lowered, "timed out"@)
    ||| contains_text(lowered, "timeout"@)
    ||| contains_text(lowered, "runtime error"@)
}

/// Whether a message that is in lower case already calls for smaller tiles.
pub fn lowered_error_suggests_split(lowered: &str) -> (split: bool)
    ensures
        split == error_calls_for_split(lowered@),
{
    contains(lowered, "timed out") || contains(lowered, "out of memory") || contains(
        lowered,
        "response code: 429",
    ) || contains(lowered, "response code: 502") || contains(lowered, "response code: 503")
        || contains(lowered, "response code: 504")
}

/// Whether the message of a failed request calls for smaller tiles.
pub fn overpass_error_suggests_split(message: &str) -> (split: bool)
    ensures
        split == error_calls_for_split(lowercase(message@)),
        is_ascii_chars(message@) ==> split == error_calls_for_split(ascii_lowered(message@)),
{
    let lowered = to_lowercase(message);
    lowered_error_suggests_split(lowered.as_str())
}

/// Whether a remark that is in lower case already calls for smaller tiles.
pub fn lowered_remark_suggests_split(lowered: &str) -> (split: bool)
    ensures
        split == remark_calls_for_split(lowered@),
{
    contains(lowered, "out of memory") || contains(lowered, "timed out") || contains(
        lowered,
        "timeout",
    ) || contains(lowered, "runtime error")
}

/// Whether the remark of a reply calls for smaller tiles.
pub fn overpass_remark_suggests_split(remark: &str) -> (split: bool)
    ensures
        split == remark_calls_for_split(lowercase(remark@)),
        is_ascii_chars(remark@) ==> split == remark_calls_for_split(ascii_lowered(remark@)),
{
    let lowered = to_lowercase(remark);
    lowered_remark_suggests_split(lowered.as_str())
}

/// What stands behind the settings of a query.
pub const QUERY_TAIL: &'static str = r#"
    (
        nwr["building"];
        nwr["building:part"];
        nwr["highway"];
        nwr["landuse"];
        nwr["natural"];
        nwr["leisure"];
        nwr["water"];
        nwr["waterway"];
        nwr["amenity"];
        nwr["tourism"];
        nwr["bridge"];
        nwr["railway"];
        nwr["roller_coaster"];
        nwr["barrier"];
        nwr["entrance"];
        nwr["door"];
        nwr["power"];
        nwr["historic"];
        nwr["emergency"];
        nwr["advertising"];
        nwr["man_made"];
        nwr["aeroway"];
        way["place"];
    )->.relsinbbox;
    (
        way(r.relsinbbox);
    )->.waysinbbox;
    (
        node(w.waysinbbox);
        node(w.relsinbbox);
    )->.nodesinbbox;
    .relsinbbox out body;
    .waysinbbox out body;
    .nodesinbbox out skel qt;"#;

/// The settings of a query: the format of the reply, how long the server may work, and the
/// bounding box.
pub open spec fn query_head(
    min_lat: Seq<char>,
    min_lng: Seq<char>,
    max_lat: Seq<char>,
    max_lng: Seq<char>,
) -> Seq<char> {
    "[out:json][timeout:"@ + decimal(OVERPASS_TIMEOUT_SECS as nat) + "][bbox:"@ + min_lat + ","@
        + min_lng + ","@ + max_lat + ","@ + max_lng + "]"@
}

/// The query for the map data in a bounding box.
pub open spec fn query_text(
    min_lat: Seq<char>,
    min_lng: Seq<char>,
    max_lat: Seq<char>,
    max_lng: Seq<char>,
) -> Seq<char> {
    query_head(min_lat, min_lng, max_lat, max_lng) + ";"@ + QUERY_TAIL@
}

/// The query for the map data in a bounding box, whose edges are given as decimal
/// numbers.
pub fn build_overpass_query(min_lat: &str, min_lng: &str, max_lat: &str, max_lng: &str) -> (query:
    String)
    ensures
        query@ == query_text(min_lat@, min_lng@, max_lat@, max_lng@),
{
    let mut query = "[out:json][timeout:".to_string();
    append_decimal(&mut query, OVERPASS_TIMEOUT_SECS);
    query.append("][bbox:");
    query.append(min_lat);
    query.append(",");
    query.append(min_lng);
    query.append(",");
    query.append(max_lat);
    query.append(",");
    query.append(max_lng);
    query.append("]");
    query.append(";");
    query.append(QUERY_TAIL);
    query
}

/// The program that a download is left to.
#[derive(Clone, Copy, Debug, PartialEq, Eq, Structural)]
pub enum DownloadProgram {
    Curl,
    Wget,
}

impl DownloadProgram {
    /// The name under which the program is started.
    pub fn name(self) -> (name: &'static str)
        ensures
            name@ == match self {
                DownloadProgram::Curl => "curl"@,
                DownloadProgram::Wget => "wget"@,
            },
    {
        match self {
            DownloadProgram::Curl => "curl",
            DownloadProgram::Wget => "wget",
        }
    }

    /// The arguments that make the program silent and write the reply to its output.
    pub fn flag(self) -> (flag: &'static str)
        ensures
            flag@ == match self {
                DownloadProgram::Curl => "-s"@,
                DownloadProgram::Wget => "-qO-"@,
            },
    {
        match self {
            DownloadProgram::Curl => "-s",
            DownloadProgram::Wget => "-qO-",
        }
    }
}

/// How a query is put to a server.
#[derive(Debug)]
pub enum DownloadRequest {
    /// A request for `url` with the parameter `data` set to `query`.
    Http { url: String, query: String },
    /// A run of a program with its flag and the address of the reply.
    Program { program: DownloadProgram, address: String },
}

/// The program that a download method names, if it names one.
pub open spec fn program_for(download_method: Seq<char>) -> Option<DownloadProgram> {
    if download_method == "curl"@ {
        Some(DownloadProgram::Curl)
    } else if download_method == "wget"@ {
        Some(DownloadProgram::Wget)
    } else {
        None
    }
}

/// How a query is put to a server by a download method: by the program that the method
/// names, else by a request of its own.
pub fn download_overpass_query(url: &str, query: &str, download_method: &str) -> (request:
    DownloadRequest)
    ensures
        match request {
            DownloadRequest::Http { url: to, query: data } => {
                &&& program_for(download_method@) is None
                &&& to@ == url@
                &&& data@ == query@
            },
            DownloadRequest::Program { program, address } => {
                &&& program_for(download_method@) == Some(program)
                &&& address@ == url@ + "?data="@ + query@
            },
        },
{
    let program = if same(download_method, "curl") {
        DownloadProgram::Curl
    } else if same(download_method, "wget") {
        DownloadProgram::Wget
    } else {
        return DownloadRequest::Http { url: url.to_string(), query: query.to_string() };
    };
    let mut address = url.to_string();
    address.append("?data=");
    address.append(query);
    DownloadRequest::Program { program, address }
}

/// What came of a request.
#[derive(Debug)]
pub enum HttpReply {
    /// A status of success, and the body.
    Body(String),
    /// A status of success, and why the body could not be read.
    Unreadable(String),
    /// Any other status.
    Status(String),
    /// No reply within the time.
    TimedOut,
    /// No connection.
    NotConnected,
    /// Another failure, with its message.
    Failed(String),
}

/// The text that a request got, or the message of its failure.
pub fn read_http_reply(reply: HttpReply) -> (result: Result<String, String>)
    ensures
        match reply {
            HttpReply::Body(body) => if body@.len() > 0 {
                result == Ok::<String, String>(body)
            } else {
                result matches Err(message) && message@ == "Error! Received invalid from server"@
            },
            HttpReply::Unreadable(message) => result == Err::<String, String>(message),
            HttpReply::Status(status) => result matches Err(message) && message@
                == "Error! Received response code: "@ + status@,
            HttpReply::TimedOut => result matches Err(message) && message@
                == "Request timed out. Try selecting a smaller area."@,
            HttpReply::NotConnected => result matches Err(message) && message@
                == "No internet connection."@,
            HttpReply::Failed(message) => result == Err::<String, String>(message),
        },
{
    match reply {
        HttpReply::Body(body) => if body.as_str().is_empty() {
            Err("Error! Received invalid from server".to_string())
        } else {
            Ok(body)
        },
        HttpReply::Unreadable(message) => Err(message),
        HttpReply::Status(status) => {
            let mut message = "Error! Received response code: ".to_string();
            message.append(status.as_str());
            Err(message)
        },
        HttpReply::TimedOut => Err(
            "Request timed out. Try selecting a smaller area.".to_string(),
        ),
        HttpReply::NotConnected => Err("No internet connection.".to_string()),
        HttpReply::Failed(message) => Err(message),
    }
}

/// What `String::from_utf8_lossy` makes of bytes.
pub uninterp spec fn lossy_text(bytes: Seq<u8>) -> Seq<char>;

/// `String::from_utf8_lossy`. The result is a function of the bytes; bytes that are
/// valid UTF-8 are decoded as they are.
#[verifier::external_body]
fn text_of_bytes(bytes: &Vec<u8>) -> (text: String)
    ensures
        text@ == lossy_text(bytes@),
        valid_utf8(bytes@) ==> text@ == decode_utf8(bytes@),
{
    String::from_utf8_lossy(bytes).to_string()
}

/// The text that a program got, or the message of its failure.
pub fn read_program_output(program: DownloadProgram, success: bool, output: Vec<u8>) -> (result:
    Result<String, String>)
    ensures
        match result {
            Ok(text) => success && text@ == lossy_text(output@) && (valid_utf8(output@) ==> text@
                == decode_utf8(output@)),
            Err(message) => !success && message@ == match program {
                DownloadProgram::Curl => "Curl command failed"@,
                DownloadProgram::Wget => "Wget command failed"@,
            },
        },
{
    if success {
        Ok(text_of_bytes(&output))
    } else {
        match program {
            DownloadProgram::Curl => Err("Curl command failed".to_string()),
            DownloadProgram::Wget => Err("Wget command failed".to_string()),
        }
    }
}

/// Up to its first semicolon a query is its settings, with the bounding box that is asked
/// for; from there on all queries are the same.
pub proof fn law_query_parts(
    min_lat: Seq<char>,
    min_lng: Seq<char>,
    max_lat: Seq<char>,
    max_lng: Seq<char>,
)
    requires
        !min_lat.contains(';'),
        !min_lng.contains(';'),
        !max_lat.contains(';'),
        !max_lng.contains(';'),
    ensures
        ({
            let query = query_text(min_lat, min_lng, max_lat, max_lng);
            let head = "[out:json][timeout:360][bbox:"@ + min_lat + ","@ + min_lng + ","@ + max_lat
                + ","@ + max_lng + "]"@;
            &&& query.take(head.len() as int) == head
            &&& !head.contains(';')
            &&& query[head.len() as int] == ';'
            &&& query.skip(head.len() as int) == ";"@ + QUERY_TAIL@
        }),
{
    reveal_strlit("[out:json][timeout:");
    reveal_strlit("][bbox:");
    reveal_strlit(",");
    reveal_strlit("]");
    reveal_strlit(";");
    let start = "[out:json][timeout:"@;
    let bounds = "][bbox:"@;
    let comma = ","@;
    let end = "]"@;
    let seconds = decimal(OVERPASS_TIMEOUT_SECS as nat);
    reveal_with_fuel(decimal, 3);
    assert(seconds =~= seq!['3', '6', '0']);
    assert(!start.contains(';') && !bounds.contains(';') && !comma.contains(';') && !end.contains(
        ';',
    ) && !seconds.contains(';'));
    lemma_contains_none(start, seconds, ';');
    lemma_contains_none(start + seconds, bounds, ';');
    lemma_contains_none(start + seconds + bounds, min_lat, ';');
    let south = start + seconds + bounds + min_lat;
    lemma_contains_none(south, comma, ';');
    lemma_contains_none(south + comma, min_lng, ';');
    let west = south + comma + min_lng;
    lemma_contains_none(west, comma, ';');
    lemma_contains_none(west + comma, max_lat, ';');
    let north = west + comma + max_lat;
    lemma_contains_none(north, comma, ';');
    lemma_contains_none(north + comma, max_lng, ';');
    lemma_contains_none(north + comma + max_lng, end, ';');
    let head = query_head(min_lat, min_lng, max_lat, max_lng);
    let query = query_text(min_lat, min_lng, max_lat, max_lng);
    reveal_strlit("[out:json][timeout:360][bbox:");
    assert(start + seconds + bounds =~= "[out:json][timeout:360][bbox:"@);
    assert(query.take(head.len() as int) =~= head);
    assert(query.skip(head.len() as int) =~= ";"@ + QUERY_TAIL@);
}

/// What neither of two texts holds, both together do not hold.
proof fn lemma_contains_none(front: Seq<char>, behind: Seq<char>, c: char)
    requires
        !front.contains(c),
        !behind.contains(c),
    ensures
        !(front + behind).contains(c),
{
    let all = front + behind;
    if all.contains(c) {
        let i = choose|i: int| 0 <= i < all.len() && all[i] == c;
        if i < front.len() {
            assert(front[i] == c);
        } else {
            assert(behind[i - front.len()] == c);
        }
    }
}

/// A message that speaks of one of the statuses of an overloaded server calls for smaller
/// tiles.
pub proof fn law_overload_calls_for_split(status: Seq<char>)
    requires
        ({
            ||| occurs_at(status, "429"@, 0)
            ||| occurs_at(status, "502"@, 0)
            ||| occurs_at(status, "503"@, 0)
            ||| occurs_at(status, "504"@, 0)
        }),
    ensures
        error_calls_for_split(ascii_lowered("Error! Received response code: "@ + status)),
{
    reveal_strlit("429");
    reveal_strlit("502");
    reveal_strlit("503");
    reveal_strlit("504");
    reveal_strlit("Error! Received response code: ");
    reveal_strlit("response code: 429");
    reveal_strlit("response code: 502");
    reveal_strlit("response code: 503");
    reveal_strlit("response code: 504");
    let lowered = ascii_lowered("Error! Received response code: "@ + status);
    let code = status.subrange(0, 3);
    assert(code[0] == status[0] && code[1] == status[1] && code[2] == status[2]);
    if occurs_at(status, "429"@, 0) {
        assert(lowered.subrange(16, 34) =~= "response code: 429"@);
        assert(occurs_at(lowered, "response code: 429"@, 16));
    } else if occurs_at(status, "502"@, 0) {
        assert(lowered.subrange(16, 34) =~= "response code: 502"@);
        assert(occurs_at(lowered, "response code: 502"@, 16));
    } else if occurs_at(status, "503"@, 0) {
        assert(lowered.subrange(16, 34) =~= "response code: 503"@);
        assert(occurs_at(lowered, "response code: 503"@, 16));
    } else {
        assert(lowered.subrange(16, 34) =~= "response code: 504"@);
        assert(occurs_at(lowered, "response code: 504"@, 16));
    }
}

/// Whatever the bounding box, a query asks for all elements with one of these keys, for ways
/// with a place, and for the ways and nodes that these are made of.
pub proof fn law_query_asks_for_everything(
    min_lat: Seq<char>,
    min_lng: Seq<char>,
    max_lat: Seq<char>,
    max_lng: Seq<char>,
)
    ensures
        ({
            let query = query_text(min_lat, min_lng, max_lat, max_lng);
            &&& contains_text(query, "nwr[\"building\"];"@)
            &&& contains_text(query, "nwr[\"building:part\"];"@)
            &&& contains_text(query, "nwr[\"highway\"];"@)
            &&& contains_text(query, "nwr[\"landuse\"];"@)
            &&& contains_text(query, "nwr[\"natural\"];"@)
            &&& contains_text(query, "nwr[\"leisure\"];"@)
            &&& contains_text(query, "nwr[\"water\"];"@)
            &&& contains_text(query, "nwr[\"waterway\"];"@)
            &&& contains_text(query, "nwr[\"amenity\"];"@)
            &&& contains_text(query, "nwr[\"tourism\"];"@)
            &&& contains_text(query, "nwr[\"bridge\"];"@)
            &&& contains_text(query, "nwr[\"railway\"];"@)
            &&& contains_text(query, "nwr[\"roller_coaster\"];"@)
            &&& contains_text(query, "nwr[\"barrier\"];"@)
            &&& contains_text(query, "nwr[\"entrance\"];"@)
            &&& contains_text(query, "nwr[\"door\"];"@)
            &&& contains_text(query, "nwr[\"power\"];"@)
            &&& contains_text(query, "nwr[\"historic\"];"@)
            &&& contains_text(query, "nwr[\"emergency\"];"@)
            &&& contains_text(query, "nwr[\"advertising\"];"@)
            &&& contains_text(query, "nwr[\"man_made\"];"@)
            &&& contains_text(query, "nwr[\"aeroway\"];"@)
            &&& contains_text(query, "way[\"place\"];"@)
            &&& contains_text(query, "way(r.relsinbbox);"@)
            &&& contains_text(query, "node(w.waysinbbox);"@)
            &&& contains_text(query, "node(w.relsinbbox);"@)
            &&& contains_text(query, ".relsinbbox out body;"@)
            &&& contains_text(query, ".waysinbbox out body;"@)
            &&& contains_text(query, ".nodesinbbox out skel qt;"@)
        }),
{
    lemma_query_tail();
    let front = query_head(min_lat, min_lng, max_lat, max_lng) + ";"@;
    lemma_found_behind(front, QUERY_TAIL@, "nwr[\"building\"];"@);
    lemma_found_behind(front, QUERY_TAIL@, "nwr[\"building:part\"];"@);
    lemma_found_behind(front, QUERY_TAIL@, "nwr[\"highway\"];"@);
    lemma_found_behind(front, QUERY_TAIL@, "nwr[\"landuse\"];"@);
    lemma_found_behind(front, QUERY_TAIL@, "nwr[\"natural\"];"@);
    lemma_found_behind(front, QUERY_TAIL@, "nwr[\"leisure\"];"@);
    lemma_found_behind(front, QUERY_TAIL@, "nwr[\"water\"];"@);
    lemma_found_behind(front, QUERY_TAIL@, "nwr[\"waterway\"];"@);
    lemma_found_behind(front, QUERY_TAIL@, "nwr[\"amenity\"];"@);
    lemma_found_behind(front, QUERY_TAIL@, "nwr[\"tourism\"];"@);
    lemma_found_behind(front, QUERY_TAIL@, "nwr[\"bridge\"];"@);
    lemma_found_behind(front, QUERY_TAIL@, "nwr[\"railway\"];"@);
    lemma_found_behind(front, QUERY_TAIL@, "nwr[\"roller_coaster\"];"@);
    lemma_found_behind(front, QUERY_TAIL@, "nwr[\"barrier\"];"@);
    lemma_found_behind(front, QUERY_TAIL@, "nwr[\"entrance\"];"@);
    lemma_found_behind(front, QUERY_TAIL@, "nwr[\"door\"];"@);
    lemma_found_behind(front, QUERY_TAIL@, "nwr[\"power\"];"@);
    lemma_found_behind(front, QUERY_TAIL@, "nwr[\"historic\"];"@);
    lemma_found_behind(front, QUERY_TAIL@, "nwr[\"emergency\"];"@);
    lemma_found_behind(front, QUERY_TAIL@, "nwr[\"advertising\"];"@);
    lemma_found_behind(front, QUERY_TAIL@, "nwr[\"man_made\"];"@);
    lemma_found_behind(front, QUERY_TAIL@, "nwr[\"aeroway\"];"@);
    lemma_found_behind(front, QUERY_TAIL@, "way[\"place\"];"@);
    lemma_found_behind(front, QUERY_TAIL@, "way(r.relsinbbox);"@);
    lemma_found_behind(front, QUERY_TAIL@, "node(w.waysinbbox);"@);
    lemma_found_behind(front, QUERY_TAIL@, "node(w.relsinbbox);"@);
    lemma_found_behind(front, QUERY_TAIL@, ".relsinbbox out body;"@);
    lemma_found_behind(front, QUERY_TAIL@, ".waysinbbox out body;"@);
    lemma_found_behind(front, QUERY_TAIL@, ".nodesinbbox out skel qt;"@);
}

/// What is found in a text is found with another text in front of it.
proof fn lemma_found_behind(front: Seq<char>, text: Seq<char>, needle: Seq<char>)
    requires
        contains_text(text, needle),
    ensures
        contains_text(front + text, needle),
{
    let at = choose|at: int| occurs_at(text, needle, at);
    let place = front.len() + at;
    assert((front + text).subrange(place, place + needle.len()) =~= text.subrange(
        at,
        at + needle.len(),
    ));
    assert(occurs_at(front + text, needle, place));
}

/// A failed request calls for smaller tiles exactly if its message in lower case speaks of
/// time, of memory or of a status of an overloaded server.
pub proof fn law_errors_that_call_for_split(lowered: Seq<char>)
    ensures
        error_calls_for_split(lowered) <==> {
            ||| contains_text(lowered, "timed out"@)
            ||| contains_text(lowered, "out of memory"@)
            ||| contains_text(lowered, "response code: 429"@)
            ||| contains_text(lowered, "response code: 502"@)
            ||| contains_text(lowered, "response code: 503"@)
            ||| contains_text(lowered, "response code: 504"@)
        },
{
}

/// A reply calls for smaller tiles exactly if its remark in lower case speaks of time, of
/// memory or of a runtime error.
pub proof fn law_remarks_that_call_for_split(lowered: Seq<char>)
    ensures
        remark_calls_for_split(lowered) <==> {
            ||| contains_text(lowered, "out of memory"@)
            ||| contains_text(lowered, "timed out"@)
            ||| contains_text(lowered, "timeout"@)
            ||| contains_text(lowered, "runtime error"@)
        },
{
}

/// What calls for smaller tiles still does with more text around it.
pub proof fn law_more_text_still_calls_for_split(
    before: Seq<char>,
    lowered: Seq<char>,
    behind: Seq<char>,
)
    ensures
        error_calls_for_split(lowered) ==> error_calls_for_split(before + lowered + behind),
        remark_calls_for_split(lowered) ==> remark_calls_for_split(before + lowered + behind),
{
    assert forall|needle: Seq<char>| #[trigger] contains_text(lowered, needle) implies contains_text(
        before + lowered + behind,
        needle,
    ) by {
        let at = choose|at: int| occurs_at(lowered, needle, at);
        let whole = before + lowered + behind;
        let place = before.len() + at;
        assert(whole.subrange(place, place + needle.len()) =~= lowered.subrange(
            at,
            at + needle.len(),
        ));
        assert(occurs_at(whole, needle, place));
    }
}

/// A download is left to a program exactly if the method is its name.
pub proof fn law_program_by_name(download_method: Seq<char>)
    ensures
        program_for(download_method) == Some(DownloadProgram::Curl) <==> download_method
            == "curl"@,
        program_for(download_method) == Some(DownloadProgram::Wget) <==> download_method
            == "wget"@,
        program_for(download_method) is None <==> download_method != "curl"@ && download_method
            != "wget"@,
{
    reveal_strlit("curl");
    reveal_strlit("wget");
    assert("curl"@[0] == 'c');
    assert("wget"@[0] == 'w');
}

/// What stands behind the settings of a query.
proof fn lemma_query_tail()
    ensures
        contains_text(QUERY_TAIL@, "nwr[\"building\"];"@),
        contains_text(QUERY_TAIL@, "nwr[\"building:part\"];"@),
        contains_text(QUERY_TAIL@, "nwr[\"highway\"];"@),
        contains_text(QUERY_TAIL@, "nwr[\"landuse\"];"@),
        contains_text(QUERY_TAIL@, "nwr[\"natural\"];"@),
        contains_text(QUERY_TAIL@, "nwr[\"leisure\"];"@),
        contains_text(QUERY_TAIL@, "nwr[\"water\"];"@),
        contains_text(QUERY_TAIL@, "nwr[\"waterway\"];"@),
        contains_text(QUERY_TAIL@, "nwr[\"amenity\"];"@),
        contains_text(QUERY_TAIL@, "nwr[\"tourism\"];"@),
        contains_text(QUERY_TAIL@, "nwr[\"bridge\"];"@),
        contains_text(QUERY_TAIL@, "nwr[\"railway\"];"@),
        contains_text(QUERY_TAIL@, "nwr[\"roller_coaster\"];"@),
        contains_text(QUERY_TAIL@, "nwr[\"barrier\"];"@),
        contains_text(QUERY_TAIL@, "nwr[\"entrance\"];"@),
        contains_text(QUERY_TAIL@, "nwr[\"door\"];"@),
        contains_text(QUERY_TAIL@, "nwr[\"power\"];"@),
        contains_text(QUERY_TAIL@, "nwr[\"historic\"];"@),
        contains_text(QUERY_TAIL@, "nwr[\"emergency\"];"@),
        contains_text(QUERY_TAIL@, "nwr[\"advertising\"];"@),
        contains_text(QUERY_TAIL@, "nwr[\"man_made\"];"@),
        contains_text(QUERY_TAIL@, "nwr[\"aeroway\"];"@),
        contains_text(QUERY_TAIL@, "way[\"place\"];"@),
        contains_text(QUERY_TAIL@, "way(r.relsinbbox);"@),
        contains_text(QUERY_TAIL@, "node(w.waysinbbox);"@),
        contains_text(QUERY_TAIL@, "node(w.relsinbbox);"@),
        contains_text(QUERY_TAIL@, ".relsinbbox out body;"@),
        contains_text(QUERY_TAIL@, ".waysinbbox out body;"@),
        contains_text(QUERY_TAIL@, ".nodesinbbox out skel qt;"@),
{
    reveal_strlit(
        r#"
    (
        nwr["building"];
        nwr["building:part"];
        nwr["highway"];
        nwr["landuse"];
        nwr["natural"];
        nwr["leisure"];
        nwr["water"];
        nwr["waterway"];
        nwr["amenity"];
        nwr["tourism"];
        nwr["bridge"];
        nwr["railway"];
        nwr["roller_coaster"];
        nwr["barrier"];
        nwr["entrance"];
        nwr["door"];
        nwr["power"];
        nwr["historic"];
        nwr["emergency"];
        nwr["advertising"];
        nwr["man_made"];
        nwr["aeroway"];
        way["place"];
    )->.relsinbbox;
    (
        way(r.relsinbbox);
    )->.waysinbbox;
    (
        node(w.waysinbbox);
        node(w.relsinbbox);
    )->.nodesinbbox;
    .relsinbbox out body;
    .waysinbbox out body;
    .nodesinbbox out skel qt;"#,
    );
    reveal_strlit("nwr[\"building\"];");
    assert(QUERY_TAIL@.subrange(15, 31) =~= "nwr[\"building\"];"@);
    assert(occurs_at(QUERY_TAIL@, "nwr[\"building\"];"@, 15));
    reveal_strlit("nwr[\"building:part\"];");
    assert(QUERY_TAIL@.subrange(40, 61) =~= "nwr[\"building:part\"];"@);
    assert(occurs_at(QUERY_TAIL@, "nwr[\"building:part\"];"@, 40));
    reveal_strlit("nwr[\"highway\"];");
    assert(QUERY_TAIL@.subrange(70, 85) =~= "nwr[\"highway\"];"@);
    assert(occurs_at(QUERY_TAIL@, "nwr[\"highway\"];"@, 70));
    reveal_strlit("nwr[\"landuse\"];");
    assert(QUERY_TAIL@.subrange(94, 109) =~= "nwr[\"landuse\"];"@);
    assert(occurs_at(QUERY_TAIL@, "nwr[\"landuse\"];"@, 94));
    reveal_strlit("nwr[\"natural\"];");
    assert(QUERY_TAIL@.subrange(118, 133) =~= "nwr[\"natural\"];"@);
    assert(occurs_at(QUERY_TAIL@, "nwr[\"natural\"];"@, 118));
    reveal_strlit("nwr[\"leisure\"];");
    assert(QUERY_TAIL@.subrange(142, 157) =~= "nwr[\"leisure\"];"@);
    assert(occurs_at(QUERY_TAIL@, "nwr[\"leisure\"];"@, 142));
    reveal_strlit("nwr[\"water\"];");
    assert(QUERY_TAIL@.subrange(166, 179) =~= "nwr[\"water\"];"@);
    assert(occurs_at(QUERY_TAIL@, "nwr[\"water\"];"@, 166));
    reveal_strlit("nwr[\"waterway\"];");
    assert(QUERY_TAIL@.subrange(188, 204) =~= "nwr[\"waterway\"];"@);
    assert(occurs_at(QUERY_TAIL@, "nwr[\"waterway\"];"@, 188));
    reveal_strlit("nwr[\"amenity\"];");
    assert(QUERY_TAIL@.subrange(213, 228) =~= "nwr[\"amenity\"];"@);
    assert(occurs_at(QUERY_TAIL@, "nwr[\"amenity\"];"@, 213));
    reveal_strlit("nwr[\"tourism\"];");
    assert(QUERY_TAIL@.subrange(237, 252) =~= "nwr[\"tourism\"];"@);
    assert(occurs_at(QUERY_TAIL@, "nwr[\"tourism\"];"@, 237));
    reveal_strlit("nwr[\"bridge\"];");
    assert(QUERY_TAIL@.subrange(261, 275) =~= "nwr[\"bridge\"];"@);
    assert(occurs_at(QUERY_TAIL@, "nwr[\"bridge\"];"@, 261));
    reveal_strlit("nwr[\"railway\"];");
    assert(QUERY_TAIL@.subrange(284, 299) =~= "nwr[\"railway\"];"@);
    assert(occurs_at(QUERY_TAIL@, "nwr[\"railway\"];"@, 284));
    reveal_strlit("nwr[\"roller_coaster\"];");
    assert(QUERY_TAIL@.subrange(308, 330) =~= "nwr[\"roller_coaster\"];"@);
    assert(occurs_at(QUERY_TAIL@, "nwr[\"roller_coaster\"];"@, 308));
    reveal_strlit("nwr[\"barrier\"];");
    assert(QUERY_TAIL@.subrange(339, 354) =~= "nwr[\"barrier\"];"@);
    assert(occurs_at(QUERY_TAIL@, "nwr[\"barrier\"];"@, 339));
    reveal_strlit("nwr[\"entrance\"];");
    assert(QUERY_TAIL@.subrange(363, 379) =~= "nwr[\"entrance\"];"@);
    assert(occurs_at(QUERY_TAIL@, "nwr[\"entrance\"];"@, 363));
    reveal_strlit("nwr[\"door\"];");
    assert(QUERY_TAIL@.subrange(388, 400) =~= "nwr[\"door\"];"@);
    assert(occurs_at(QUERY_TAIL@, "nwr[\"door\"];"@, 388));
    reveal_strlit("nwr[\"power\"];");
    assert(QUERY_TAIL@.subrange(409, 422) =~= "nwr[\"power\"];"@);
    assert(occurs_at(QUERY_TAIL@, "nwr[\"power\"];"@, 409));
    reveal_strlit("nwr[\"historic\"];");
    assert(QUERY_TAIL@.subrange(431, 447) =~= "nwr[\"historic\"];"@);
    assert(occurs_at(QUERY_TAIL@, "nwr[\"historic\"];"@, 431));
    reveal_strlit("nwr[\"emergency\"];");
    assert(QUERY_TAIL@.subrange(456, 473) =~= "nwr[\"emergency\"];"@);
    assert(occurs_at(QUERY_TAIL@, "nwr[\"emergency\"];"@, 456));
    reveal_strlit("nwr[\"advertising\"];");
    assert(QUERY_TAIL@.subrange(482, 501) =~= "nwr[\"advertising\"];"@);
    assert(occurs_at(QUERY_TAIL@, "nwr[\"advertising\"];"@, 482));
    reveal_strlit("nwr[\"man_made\"];");
    assert(QUERY_TAIL@.subrange(510, 526) =~= "nwr[\"man_made\"];"@);
    assert(occurs_at(QUERY_TAIL@, "nwr[\"man_made\"];"@, 510));
    reveal_strlit("nwr[\"aeroway\"];");
    assert(QUERY_TAIL@.subrange(535, 550) =~= "nwr[\"aeroway\"];"@);
    assert(occurs_at(QUERY_TAIL@, "nwr[\"aeroway\"];"@, 535));
    reveal_strlit("way[\"place\"];");
    assert(QUERY_TAIL@.subrange(559, 572) =~= "way[\"place\"];"@);
    assert(occurs_at(QUERY_TAIL@, "way[\"place\"];"@, 559));
    reveal_strlit("way(r.relsinbbox);");
    assert(QUERY_TAIL@.subrange(607, 625) =~= "way(r.relsinbbox);"@);
    assert(occurs_at(QUERY_TAIL@, "way(r.relsinbbox);"@, 607));
    reveal_strlit("node(w.waysinbbox);");
    assert(QUERY_TAIL@.subrange(660, 679) =~= "node(w.waysinbbox);"@);
    assert(occurs_at(QUERY_TAIL@, "node(w.waysinbbox);"@, 660));
    reveal_strlit("node(w.relsinbbox);");
    assert(QUERY_TAIL@.subrange(688, 707) =~= "node(w.relsinbbox);"@);
    assert(occurs_at(QUERY_TAIL@, "node(w.relsinbbox);"@, 688));
    reveal_strlit(".relsinbbox out body;");
    assert(QUERY_TAIL@.subrange(733, 754) =~= ".relsinbbox out body;"@);
    assert(occurs_at(QUERY_TAIL@, ".relsinbbox out body;"@, 733));
    reveal_strlit(".waysinbbox out body;");
    assert(QUERY_TAIL@.subrange(759, 780) =~= ".waysinbbox out body;"@);
    assert(occurs_at(QUERY_TAIL@, ".waysinbbox out body;"@, 759));
    reveal_strlit(".nodesinbbox out skel qt;");
    assert(QUERY_TAIL@.subrange(785, 810) =~= ".nodesinbbox out skel qt;"@);
    assert(occurs_at(QUERY_TAIL@, ".nodesinbbox out skel qt;"@, 785));
}

} // verus!
