//! The replies of Overpass servers, and how those for several tiles are merged.

use crate::json::{
    json_contents, member, text, text_member, unsigned, unsigned_member, Json,
};
use crate::text::{contains_text, occurs_at, same};
use std::collections::HashMap;
use vstd::prelude::*;

verus! {

/// The reply to a query: map elements, and what the server remarked.
#[derive(Debug)]
pub struct RawOverpassResponse {
    pub elements: Vec<serde_json::Value>,
    pub remark: Option<String>,
}

/// What a reply holds.
#[verifier::ext_equal]
pub struct Response {
    pub elements: Seq<serde_json::Value>,
    pub remark: Option<Seq<char>>,
}

impl View for RawOverpassResponse {
    type V = Response;

    open spec fn view(&self) -> Response {
        Response {
            elements: self.elements@,
            remark: match self.remark {
                Some(remark) => Some(remark@),
                None => None,
            },
        }
    }
}

/// The type and the number of a map element, if it has both.
pub open spec fn identity(element: serde_json::Value) -> Option<(Seq<char>, u64)> {
    let contents = json_contents(element);
    match (text_member(contents, "type"@), unsigned_member(contents, "id"@)) {
        (Some(element_type), Some(id)) => Some((element_type, id)),
        _ => None,
    }
}

/// The type and the number of a map element, if it has both.
pub fn element_identity(element: &serde_json::Value) -> (found: Option<(String, u64)>)
    ensures
        match found {
            Some((element_type, id)) => identity(*element) == Some((element_type@, id)),
            None => identity(*element) is None,
        },
        forall|element_type: Seq<char>, id: u64| #[trigger]
            reads_as(json_contents(*element), element_type, id) <==> (found matches Some(pair)
                && pair.0@ == element_type && pair.1 == id),
{
    let element_type = match member(element, "type") {
        Some(value) => match text(value) {
            Some(name) => name.to_string(),
            None => return None,
        },
        None => return None,
    };
    let id: u64 = match member(element, "id") {
        Some(value) => match unsigned(value) {
            Some(number) => number,
            None => return None,
        },
        None => return None,
    };
    Some((element_type, id))
}

/// An element has no identity, or none of the `earlier` elements has the same.
pub open spec fn is_new(element: serde_json::Value, earlier: Seq<serde_json::Value>) -> bool {
    identity(element) is Some ==> forall|i: int|
        0 <= i < earlier.len() ==> identity(#[trigger] earlier[i]) != identity(element)
}

/// The elements without those that repeat the identity of an earlier one.
pub open spec fn without_repeats(elements: Seq<serde_json::Value>) -> Seq<serde_json::Value>
    decreases elements.len(),
{
    if elements.len() == 0 {
        Seq::empty()
    } else {
        let before = without_repeats(elements.drop_last());
        if is_new(elements.last(), elements.drop_last()) {
            before.push(elements.last())
        } else {
            before
        }
    }
}

/// The elements of all replies, in order.
pub open spec fn all_elements(responses: Seq<Response>) -> Seq<serde_json::Value>
    decreases responses.len(),
{
    if responses.len() == 0 {
        Seq::empty()
    } else {
        all_elements(responses.drop_last()) + responses.last().elements
    }
}

/// The remarks of all replies that are not empty, in order.
pub open spec fn all_remarks(responses: Seq<Response>) -> Seq<Seq<char>>
    decreases responses.len(),
{
    if responses.len() == 0 {
        Seq::empty()
    } else {
        let before = all_remarks(responses.drop_last());
        match responses.last().remark {
            Some(remark) => if remark.len() > 0 {
                before.push(remark)
            } else {
                before
            },
            None => before,
        }
    }
}

/// Some texts with a separator between them.
pub open spec fn joined(texts: Seq<Seq<char>>, separator: Seq<char>) -> Seq<char>
    decreases texts.len(),
{
    if texts.len() == 0 {
        Seq::empty()
    } else if texts.len() == 1 {
        texts[0]
    } else {
        joined(texts.drop_last(), separator) + separator + texts.last()
    }
}

/// One reply in place of several: each element once, and all remarks.
pub open spec fn merged(responses: Seq<Response>) -> Response {
    let remarks = all_remarks(responses);
    Response {
        elements: without_repeats(all_elements(responses)),
        remark: if remarks.len() == 0 {
            None
        } else {
            Some(joined(remarks, " | "@))
        },
    }
}

/// What each of several replies holds.
pub open spec fn views(responses: Seq<RawOverpassResponse>) -> Seq<Response> {
    responses.map_values(|response: RawOverpassResponse| response@)
}

/// The type is among those noted for the number.
spec fn noted(seen: Map<u64, Vec<String>>, element_type: Seq<char>, id: u64) -> bool {
    seen.contains_key(id) && exists|i: int|
        0 <= i < seen[id]@.len() && #[trigger] seen[id]@[i]@ == element_type
}

/// What is noted is what the elements are identified by.
spec fn notes(seen: Map<u64, Vec<String>>, elements: Seq<serde_json::Value>) -> bool {
    forall|element_type: Seq<char>, id: u64| #[trigger]
        noted(seen, element_type, id) <==> exists|i: int|
            0 <= i < elements.len() && identity(#[trigger] elements[i]) == Some((element_type, id))
}

/// Whether a text is among some texts.
fn is_listed(texts: &Vec<String>, wanted: &str) -> (listed: bool)
    ensures
        listed == exists|i: int| 0 <= i < texts@.len() && #[trigger] texts@[i]@ == wanted@,
{
    let mut i: usize = 0;
    while i < texts.len()
        invariant
            i <= texts@.len(),
            forall|j: int| 0 <= j < i ==> #[trigger] texts@[j]@ != wanted@,
        decreases texts@.len() - i,
    {
        if same(texts[i].as_str(), wanted) {
            return true;
        }
        i = i + 1;
    }
    false
}

/// Notes an identity, and says whether it is new.
fn note_identity(
    seen: &mut HashMap<u64, Vec<String>>,
    element_type: String,
    id: u64,
    Ghost(elements): Ghost<Seq<serde_json::Value>>,
    Ghost(element): Ghost<serde_json::Value>,
) -> (fresh: bool)
    requires
        notes(old(seen)@, elements),
        identity(element) == Some((element_type@, id)),
    ensures
        notes(final(seen)@, elements.push(element)),
        fresh == is_new(element, elements),
{
    broadcast use vstd::std_specs::hash::group_hash_axioms;

    let ghost before = seen@;
    let mut types = match seen.remove(&id) {
        Some(types) => types,
        None => Vec::new(),
    };
    let fresh = !is_listed(&types, element_type.as_str());
    proof {
        assert(fresh == !noted(before, element_type@, id));
    }
    if fresh {
        types.push(element_type);
    }
    let ghost kept = types@;
    seen.insert(id, types);
    proof {
        let after = seen@;
        let all = elements.push(element);
        assert forall|wanted: Seq<char>, number: u64| #[trigger] noted(after, wanted, number) <==> (
        exists|i: int| 0 <= i < all.len() && identity(#[trigger] all[i]) == Some((wanted, number))) by {
            assert(noted(before, wanted, number) <==> exists|i: int|
                0 <= i < elements.len() && identity(#[trigger] elements[i]) == Some(
                    (wanted, number),
                ));
            if noted(before, wanted, number) {
                let i = choose|i: int|
                    0 <= i < elements.len() && identity(#[trigger] elements[i]) == Some(
                        (wanted, number),
                    );
                assert(all[i] == elements[i]);
                if number == id {
                    let j = choose|j: int|
                        0 <= j < before[id]@.len() && #[trigger] before[id]@[j]@ == wanted;
                    assert(after[id]@[j]@ == wanted);
                } else {
                    assert(after[number] == before[number]);
                }
                assert(noted(after, wanted, number));
            }
            if wanted == element_type@ && number == id {
                assert(all[elements.len() as int] == element);
                if fresh {
                    assert(after[id]@[kept.len() - 1]@ == wanted);
                } else {
                    let j = choose|j: int|
                        0 <= j < before[id]@.len() && #[trigger] before[id]@[j]@ == wanted;
                    assert(after[id]@[j]@ == wanted);
                }
                assert(noted(after, wanted, number));
            }
            if noted(after, wanted, number) && !(wanted == element_type@ && number == id) {
                if number == id {
                    let j = choose|j: int|
                        0 <= j < after[id]@.len() && #[trigger] after[id]@[j]@ == wanted;
                    assert(before.contains_key(id));
                    assert(before[id]@[j]@ == wanted);
                } else {
                    assert(after[number] == before[number]);
                }
                assert(noted(before, wanted, number));
            }
            if exists|i: int|
                0 <= i < all.len() && identity(#[trigger] all[i]) == Some((wanted, number)) {
                let i = choose|i: int|
                    0 <= i < all.len() && identity(#[trigger] all[i]) == Some((wanted, number));
                if i < elements.len() {
                    assert(elements[i] == all[i]);
                }
            }
        }
    }
    fresh
}

/// Some texts with a separator between them.
fn join(texts: &Vec<String>, separator: &str) -> (text: String)
    ensures
        text@ == joined(texts@.map_values(|t: String| t@), separator@),
{
    let ghost all = texts@.map_values(|t: String| t@);
    let mut text = String::new();
    let mut i: usize = 0;
    while i < texts.len()
        invariant
            i <= texts@.len(),
            all == texts@.map_values(|t: String| t@),
            text@ == joined(all.take(i as int), separator@),
        decreases texts@.len() - i,
    {
        proof {
            assert(all.take(i + 1).drop_last() == all.take(i as int));
        }
        if i > 0 {
            text.append(separator);
        }
        text.append(texts[i].as_str());
        proof {
            if i == 0 {
                assert(text@ == all.take(1)[0]);
            }
        }
        i = i + 1;
    }
    proof {
        assert(all.take(i as int) == all);
    }
    text
}

/// One reply in place of several: each element once, and all remarks.
pub fn merge_raw_overpass_responses(responses: Vec<RawOverpassResponse>) -> (merge:
    RawOverpassResponse)
    ensures
        merge@ == merged(views(responses@)),
{
    broadcast use vstd::std_specs::hash::group_hash_axioms;

    let ghost all = views(responses@);
    let mut seen: HashMap<u64, Vec<String>> = HashMap::new();
    let mut merged_elements: Vec<serde_json::Value> = Vec::new();
    let mut remarks: Vec<String> = Vec::new();
    let ghost mut elements_so_far: Seq<serde_json::Value> = Seq::empty();
    for response in iter: responses
        invariant
            iter.seq() == responses@,
            all == views(responses@),
            elements_so_far == all_elements(all.take(iter.index())),
            remarks@.map_values(|t: String| t@) == all_remarks(all.take(iter.index())),
            merged_elements@ == without_repeats(elements_so_far),
            notes(seen@, elements_so_far),
    {
        let ghost done = iter.index();
        let ghost before = elements_so_far;
        let ghost own = response.elements@;
        proof {
            assert(all.take(done + 1).drop_last() == all.take(done));
            assert(all.take(done + 1).last() == response@);
        }
        let RawOverpassResponse { elements, remark } = response;
        if let Some(note) = remark {
            if !note.as_str().is_empty() {
                let ghost noted_before = remarks@;
                remarks.push(note);
                proof {
                    assert(remarks@.map_values(|t: String| t@) == noted_before.map_values(
                        |t: String| t@,
                    ).push(note@));
                }
            }
        }
        for element in inner: elements
            invariant
                inner.seq() == own,
                elements_so_far == before + own.take(inner.index()),
                merged_elements@ == without_repeats(elements_so_far),
                notes(seen@, elements_so_far),
        {
            let ghost earlier = elements_so_far;
            proof {
                elements_so_far = earlier.push(element);
                assert(elements_so_far.drop_last() == earlier);
                assert(elements_so_far == before + own.take(inner.index() + 1));
            }
            match element_identity(&element) {
                Some((element_type, id)) => {
                    if note_identity(&mut seen, element_type, id, Ghost(earlier), Ghost(element)) {
                        merged_elements.push(element);
                    }
                },
                None => {
                    proof {
                        assert forall|t: Seq<char>, n: u64| #[trigger] noted(seen@, t, n) <==> (
                        exists|i: int|
                            0 <= i < elements_so_far.len() && identity(
                                #[trigger] elements_so_far[i],
                            ) == Some((t, n))) by {
                            if noted(seen@, t, n) {
                                let i = choose|i: int|
                                    0 <= i < earlier.len() && identity(#[trigger] earlier[i])
                                        == Some((t, n));
                                assert(elements_so_far[i] == earlier[i]);
                            }
                            if exists|i: int|
                                0 <= i < elements_so_far.len() && identity(
                                    #[trigger] elements_so_far[i],
                                ) == Some((t, n)) {
                                let i = choose|i: int|
                                    0 <= i < elements_so_far.len() && identity(
                                        #[trigger] elements_so_far[i],
                                    ) == Some((t, n));
                                assert(earlier[i] == elements_so_far[i]);
                            }
                        }
                    }
                    merged_elements.push(element);
                },
            }
        }
        proof {
            assert(own.take(own.len() as int) == own);
        }
    }
    proof {
        assert(all.take(all.len() as int) == all);
    }
    let remark = if remarks.len() == 0 {
        None
    } else {
        Some(join(&remarks, " | "))
    };
    RawOverpassResponse { elements: merged_elements, remark }
}

/// An element, or one with the same identity, is among some elements.
pub open spec fn is_represented(
    element: serde_json::Value,
    elements: Seq<serde_json::Value>,
) -> bool {
    match identity(element) {
        Some(own) => exists|i: int|
            0 <= i < elements.len() && identity(#[trigger] elements[i]) == Some(own),
        None => elements.contains(element),
    }
}

/// Leaving out repeats keeps one element of each identity, all elements without an
/// identity, and adds nothing.
proof fn lemma_without_repeats(elements: Seq<serde_json::Value>)
    ensures
        forall|i: int, j: int|
            0 <= i < j < without_repeats(elements).len() && identity(
                #[trigger] without_repeats(elements)[i],
            ) is Some ==> identity(without_repeats(elements)[i]) != identity(
                #[trigger] without_repeats(elements)[j],
            ),
        forall|i: int|
            0 <= i < elements.len() ==> is_represented(
                #[trigger] elements[i],
                without_repeats(elements),
            ),
        forall|i: int|
            0 <= i < without_repeats(elements).len() ==> elements.contains(
                #[trigger] without_repeats(elements)[i],
            ),
    decreases elements.len(),
{
    if elements.len() > 0 {
        let earlier = elements.drop_last();
        let last = elements.last();
        lemma_without_repeats(earlier);
        let before = without_repeats(earlier);
        let all = without_repeats(elements);
        assert forall|i: int| 0 <= i < all.len() implies elements.contains(#[trigger] all[i]) by {
            if i < before.len() {
                assert(all[i] == before[i]);
                assert(earlier.contains(before[i]));
                let k = choose|k: int| 0 <= k < earlier.len() && earlier[k] == before[i];
                assert(elements[k] == all[i]);
            } else {
                assert(elements[elements.len() - 1] == all[i]);
            }
        }
        assert forall|i: int, j: int|
            0 <= i < j < all.len() && identity(#[trigger] all[i]) is Some implies identity(all[i])
            != identity(#[trigger] all[j]) by {
            assert(all[i] == before[i]);
            if j < before.len() {
                assert(all[j] == before[j]);
            } else {
                assert(earlier.contains(before[i]));
                let k = choose|k: int| 0 <= k < earlier.len() && earlier[k] == before[i];
                assert(identity(earlier[k]) == identity(before[i]));
            }
        }
        assert forall|i: int| 0 <= i < elements.len() implies is_represented(
            #[trigger] elements[i],
            all,
        ) by {
            if i < earlier.len() {
                assert(elements[i] == earlier[i]);
                assert(is_represented(earlier[i], before));
                lemma_represented_in_more(elements[i], before, all);
            } else if is_new(last, earlier) {
                assert(all[before.len() as int] == last);
            } else {
                let k = choose|k: int|
                    0 <= k < earlier.len() && identity(#[trigger] earlier[k]) == identity(last);
                assert(is_represented(earlier[k], before));
            }
        }
    }
}

proof fn lemma_represented_in_more(
    element: serde_json::Value,
    fewer: Seq<serde_json::Value>,
    more: Seq<serde_json::Value>,
)
    requires
        is_represented(element, fewer),
        fewer.len() <= more.len(),
        forall|i: int| 0 <= i < fewer.len() ==> #[trigger] more[i] == fewer[i],
    ensures
        is_represented(element, more),
{
    match identity(element) {
        Some(own) => {
            let k = choose|k: int|
                0 <= k < fewer.len() && identity(#[trigger] fewer[k]) == Some(own);
            assert(identity(more[k]) == Some(own));
        },
        None => {
            let k = choose|k: int| 0 <= k < fewer.len() && fewer[k] == element;
            assert(more[k] == element);
        },
    }
}

/// The elements of each reply are among the elements of all.
proof fn lemma_all_elements(responses: Seq<Response>, r: int, e: int)
    requires
        0 <= r < responses.len(),
        0 <= e < responses[r].elements.len(),
    ensures
        all_elements(responses).contains(responses[r].elements[e]),
    decreases responses.len(),
{
    let before = all_elements(responses.drop_last());
    let all = all_elements(responses);
    if r < responses.len() - 1 {
        lemma_all_elements(responses.drop_last(), r, e);
        let k = choose|k: int| 0 <= k < before.len() && before[k] == responses[r].elements[e];
        assert(all[k] == responses[r].elements[e]);
    } else {
        assert(all[before.len() + e] == responses[r].elements[e]);
    }
}

/// No two elements of a merged reply have the same type and number.
pub proof fn law_merged_elements_differ(responses: Seq<Response>, i: int, j: int)
    requires
        0 <= i < j < merged(responses).elements.len(),
        identity(merged(responses).elements[i]) is Some,
    ensures
        identity(merged(responses).elements[i]) != identity(merged(responses).elements[j]),
{
    lemma_without_repeats(all_elements(responses));
}

/// No element is lost when replies are merged: it, or one of the same type and number, is in
/// the merged reply.
pub proof fn law_merged_elements_complete(responses: Seq<Response>, r: int, e: int)
    requires
        0 <= r < responses.len(),
        0 <= e < responses[r].elements.len(),
    ensures
        is_represented(responses[r].elements[e], merged(responses).elements),
{
    let all = all_elements(responses);
    lemma_all_elements(responses, r, e);
    let k = choose|k: int| 0 <= k < all.len() && all[k] == responses[r].elements[e];
    lemma_without_repeats(all);
    assert(is_represented(all[k], without_repeats(all)));
}

/// Merging replies adds no element: each one of a merged reply comes from one of the replies.
pub proof fn law_merged_elements_given(responses: Seq<Response>, i: int)
    requires
        0 <= i < merged(responses).elements.len(),
    ensures
        exists|r: int|
            0 <= r < responses.len() && (#[trigger] responses[r]).elements.contains(
                merged(responses).elements[i],
            ),
{
    let element = merged(responses).elements[i];
    lemma_without_repeats(all_elements(responses));
    assert(all_elements(responses).contains(element));
    lemma_given(responses, element);
}

proof fn lemma_given(responses: Seq<Response>, element: serde_json::Value)
    requires
        all_elements(responses).contains(element),
    ensures
        exists|r: int|
            0 <= r < responses.len() && (#[trigger] responses[r]).elements.contains(element),
    decreases responses.len(),
{
    let shorter = responses.drop_last();
    let before = all_elements(shorter);
    let all = all_elements(responses);
    let k = choose|k: int| 0 <= k < all.len() && all[k] == element;
    if k < before.len() {
        assert(before[k] == element);
        lemma_given(shorter, element);
        let r = choose|r: int|
            0 <= r < shorter.len() && (#[trigger] shorter[r]).elements.contains(element);
        assert(responses[r].elements.contains(element));
    } else {
        let last = responses[responses.len() - 1];
        assert(last.elements[k - before.len()] == element);
        assert(last.elements.contains(element));
    }
}

/// A text is found in a longer one.
proof fn lemma_contained(before: Seq<char>, text: Seq<char>, behind: Seq<char>, needle: Seq<char>)
    requires
        contains_text(text, needle),
    ensures
        contains_text(before + text + behind, needle),
{
    let at = choose|at: int| occurs_at(text, needle, at);
    let whole = before + text + behind;
    let place = before.len() + at;
    assert(whole.subrange(place, place + needle.len()) == text.subrange(at, at + needle.len()));
    assert(occurs_at(whole, needle, place));
}

/// Each of some texts is found in them all joined.
proof fn lemma_joined_contains(texts: Seq<Seq<char>>, separator: Seq<char>, i: int)
    requires
        0 <= i < texts.len(),
    ensures
        contains_text(joined(texts, separator), texts[i]),
    decreases texts.len(),
{
    let text = texts[i];
    assert(text.subrange(0, text.len() as int) == text);
    assert(occurs_at(text, text, 0));
    let whole = joined(texts, separator);
    if texts.len() > 1 {
        let before = joined(texts.drop_last(), separator);
        if i < texts.len() - 1 {
            lemma_joined_contains(texts.drop_last(), separator, i);
            lemma_contained(Seq::empty(), before, separator + texts.last(), text);
            assert(Seq::<char>::empty() + before + (separator + texts.last()) == whole);
        } else {
            lemma_contained(before + separator, text, Seq::empty(), text);
            assert(before + separator + text + Seq::<char>::empty() == whole);
        }
    }
}

/// The remark of each reply is among all remarks, if it is not empty.
proof fn lemma_all_remarks(responses: Seq<Response>, r: int) -> (k: int)
    requires
        0 <= r < responses.len(),
        responses[r].remark matches Some(remark) && remark.len() > 0,
    ensures
        0 <= k < all_remarks(responses).len(),
        all_remarks(responses)[k] == responses[r].remark->0,
    decreases responses.len(),
{
    let before = all_remarks(responses.drop_last());
    if r < responses.len() - 1 {
        let k = lemma_all_remarks(responses.drop_last(), r);
        assert(all_remarks(responses)[k] == before[k]);
        k
    } else {
        before.len() as int
    }
}

/// What a server remarked is found in the remark of the merged reply.
pub proof fn law_merged_remark_complete(responses: Seq<Response>, r: int)
    requires
        0 <= r < responses.len(),
        responses[r].remark is Some,
        responses[r].remark->0.len() > 0,
    ensures
        merged(responses).remark is Some,
        contains_text(merged(responses).remark->0, responses[r].remark->0),
{
    let k = lemma_all_remarks(responses, r);
    lemma_joined_contains(all_remarks(responses), " | "@, k);
}

/// Elements that repeat none before them stay when others are put behind them, and those
/// behind stay if they repeat none of all before them.
proof fn lemma_repeats_behind(
    front: Seq<serde_json::Value>,
    other: Seq<serde_json::Value>,
    behind: Seq<serde_json::Value>,
)
    requires
        without_repeats(front) == without_repeats(other),
        forall|e: serde_json::Value| #[trigger] is_new(e, front) == is_new(e, other),
    ensures
        without_repeats(front + behind) == without_repeats(other + behind),
        forall|e: serde_json::Value| #[trigger]
            is_new(e, front + behind) == is_new(e, other + behind),
    decreases behind.len(),
{
    if behind.len() == 0 {
        assert(front + behind == front);
        assert(other + behind == other);
    } else {
        let shorter = behind.drop_last();
        lemma_repeats_behind(front, other, shorter);
        assert((front + behind).drop_last() == front + shorter);
        assert((other + behind).drop_last() == other + shorter);
        assert forall|e: serde_json::Value| #[trigger] is_new(e, front + behind) == is_new(
            e,
            other + behind,
        ) by {
            lemma_new_behind(e, front + shorter, behind.last());
            lemma_new_behind(e, other + shorter, behind.last());
            assert(front + behind == (front + shorter).push(behind.last()));
            assert(other + behind == (other + shorter).push(behind.last()));
        }
    }
}

proof fn lemma_new_behind(
    element: serde_json::Value,
    earlier: Seq<serde_json::Value>,
    last: serde_json::Value,
)
    ensures
        is_new(element, earlier.push(last)) == (is_new(element, earlier) && (identity(element)
            is Some ==> identity(last) != identity(element))),
{
    let all = earlier.push(last);
    if is_new(element, all) && identity(element) is Some {
        assert(identity(all[earlier.len() as int]) != identity(element));
        assert forall|i: int| 0 <= i < earlier.len() implies identity(#[trigger] earlier[i])
            != identity(element) by {
            assert(all[i] == earlier[i]);
        }
    }
}

/// What repeats none of some elements repeats none of those left without repeats.
proof fn lemma_new_without_repeats(elements: Seq<serde_json::Value>)
    ensures
        forall|e: serde_json::Value| #[trigger]
            is_new(e, without_repeats(elements)) == is_new(e, elements),
        without_repeats(without_repeats(elements)) == without_repeats(elements),
    decreases elements.len(),
{
    if elements.len() > 0 {
        let earlier = elements.drop_last();
        let last = elements.last();
        let before = without_repeats(earlier);
        lemma_new_without_repeats(earlier);
        assert(elements == earlier.push(last));
        assert forall|e: serde_json::Value| #[trigger] is_new(e, without_repeats(elements))
            == is_new(e, elements) by {
            lemma_new_behind(e, earlier, last);
            lemma_new_behind(e, before, last);
            assert(is_new(e, before) == is_new(e, earlier));
            if !is_new(last, earlier) {
                let k = choose|k: int|
                    0 <= k < earlier.len() && identity(#[trigger] earlier[k]) == identity(last);
                if identity(e) == identity(last) {
                    assert(identity(earlier[k]) == identity(e));
                }
            }
        }
        if is_new(last, earlier) {
            assert(is_new(last, before));
            assert(before.push(last).drop_last() == before);
        }
    }
}

/// The elements and remarks of two lists of replies.
proof fn lemma_all_of_two(front: Seq<Response>, behind: Seq<Response>)
    ensures
        all_elements(front + behind) == all_elements(front) + all_elements(behind),
        all_remarks(front + behind) == all_remarks(front) + all_remarks(behind),
    decreases behind.len(),
{
    if behind.len() == 0 {
        assert(front + behind == front);
    } else {
        lemma_all_of_two(front, behind.drop_last());
        assert((front + behind).drop_last() == front + behind.drop_last());
    }
}

/// The elements and remarks of one reply.
proof fn lemma_all_of_one(response: Response)
    ensures
        all_elements(seq![response]) == response.elements,
        all_remarks(seq![response]) == match response.remark {
            Some(remark) => if remark.len() > 0 {
                seq![remark]
            } else {
                Seq::empty()
            },
            None => Seq::empty(),
        },
{
    let one = seq![response];
    let none = Seq::<Response>::empty();
    assert(one.drop_last() == none);
    assert(all_elements(none) == Seq::<serde_json::Value>::empty());
    assert(all_remarks(none) == Seq::<Seq<char>>::empty());
    assert(all_elements(one) == all_elements(none) + response.elements);
}

/// Texts joined in two groups.
proof fn lemma_joined_in_groups(
    front: Seq<Seq<char>>,
    behind: Seq<Seq<char>>,
    separator: Seq<char>,
)
    requires
        front.len() > 0,
        behind.len() > 0,
    ensures
        joined(front + behind, separator) == joined(front, separator) + separator + joined(
            behind,
            separator,
        ),
    decreases behind.len(),
{
    let whole = front + behind;
    if behind.len() == 1 {
        assert(whole.drop_last() == front);
    } else {
        lemma_joined_in_groups(front, behind.drop_last(), separator);
        assert(whole.drop_last() == front + behind.drop_last());
        let a = joined(front, separator);
        let b = joined(behind.drop_last(), separator);
        assert(a + separator + b + separator + behind.last() == a + separator + (b + separator
            + behind.last()));
    }
}

/// Texts that are not empty give a text that is not empty.
proof fn lemma_joined_not_empty(texts: Seq<Seq<char>>, separator: Seq<char>)
    requires
        texts.len() > 0,
        forall|i: int| 0 <= i < texts.len() ==> (#[trigger] texts[i]).len() > 0,
    ensures
        joined(texts, separator).len() > 0,
{
    assert(texts[0].len() > 0);
    if texts.len() > 1 {
        assert(texts[texts.len() - 1].len() > 0);
    }
}

proof fn lemma_remarks_not_empty(responses: Seq<Response>)
    ensures
        forall|i: int|
            0 <= i < all_remarks(responses).len() ==> (#[trigger] all_remarks(responses)[i]).len()
                > 0,
    decreases responses.len(),
{
    if responses.len() > 0 {
        lemma_remarks_not_empty(responses.drop_last());
        let before = all_remarks(responses.drop_last());
        let all = all_remarks(responses);
        assert forall|i: int| 0 <= i < all.len() implies (#[trigger] all[i]).len() > 0 by {
            if i < before.len() {
                assert(all[i] == before[i]);
            }
        }
    }
}

/// Replies can be merged in groups: merging what two groups give is merging them all.
pub proof fn law_merged_in_groups(front: Seq<Response>, behind: Seq<Response>)
    ensures
        merged(seq![merged(front), merged(behind)]) == merged(front + behind),
{
    let a = merged(front);
    let b = merged(behind);
    let pair = seq![a, b];
    lemma_all_of_two(front, behind);
    let ea = all_elements(front);
    let eb = all_elements(behind);
    // the elements
    assert(pair == seq![a] + seq![b]);
    lemma_all_of_two(seq![a], seq![b]);
    lemma_all_of_one(a);
    lemma_all_of_one(b);
    assert(all_elements(pair) == a.elements + b.elements);
    lemma_new_without_repeats(ea);
    lemma_repeats_behind(a.elements, ea, b.elements);
    lemma_repeats_dropped(ea, eb);
    assert(merged(pair).elements == merged(front + behind).elements);
    // the remarks
    lemma_remarks_not_empty(front);
    lemma_remarks_not_empty(behind);
    let ra = all_remarks(front);
    let rb = all_remarks(behind);
    let separator = " | "@;
    if ra.len() > 0 {
        lemma_joined_not_empty(ra, separator);
    }
    if rb.len() > 0 {
        lemma_joined_not_empty(rb, separator);
    }
    if ra.len() > 0 && rb.len() > 0 {
        lemma_joined_in_groups(ra, rb, separator);
        let both = seq![joined(ra, separator), joined(rb, separator)];
        assert(all_remarks(pair) == both);
        assert(both.drop_last() == seq![joined(ra, separator)]);
        assert(joined(seq![joined(ra, separator)], separator) == joined(ra, separator));
        assert(joined(both, separator) == joined(ra + rb, separator));
    } else if ra.len() > 0 {
        assert(ra + rb == ra);
        assert(all_remarks(pair) == seq![joined(ra, separator)]);
    } else if rb.len() > 0 {
        assert(ra + rb == rb);
        assert(all_remarks(pair) == seq![joined(rb, separator)]);
    } else {
        assert(all_remarks(pair) == Seq::<Seq<char>>::empty());
    }
}

/// Repeats among the elements behind can be left out beforehand.
proof fn lemma_repeats_dropped(front: Seq<serde_json::Value>, behind: Seq<serde_json::Value>)
    ensures
        without_repeats(front + without_repeats(behind)) == without_repeats(front + behind),
        forall|e: serde_json::Value| #[trigger]
            is_new(e, front + without_repeats(behind)) == is_new(e, front + behind),
    decreases behind.len(),
{
    if behind.len() == 0 {
        assert(without_repeats(behind) == behind);
    } else {
        let shorter = behind.drop_last();
        let last = behind.last();
        lemma_repeats_dropped(front, shorter);
        let kept = front + without_repeats(shorter);
        let all = front + shorter;
        assert(front + behind == all.push(last));
        assert((front + behind).drop_last() == all);
        assert(is_new(last, kept) == is_new(last, all));
        if is_new(last, shorter) {
            assert(front + without_repeats(behind) == kept.push(last));
            assert(kept.push(last).drop_last() == kept);
            assert forall|e: serde_json::Value| #[trigger] is_new(
                e,
                front + without_repeats(behind),
            ) == is_new(e, front + behind) by {
                assert(is_new(e, kept) == is_new(e, all));
                lemma_new_behind(e, kept, last);
                lemma_new_behind(e, all, last);
            }
        } else {
            let k = choose|k: int|
                0 <= k < shorter.len() && identity(#[trigger] shorter[k]) == identity(last);
            assert(identity(all[front.len() + k]) == identity(last));
            assert(!is_new(last, all));
            assert forall|e: serde_json::Value| #[trigger] is_new(
                e,
                front + without_repeats(behind),
            ) == is_new(e, front + behind) by {
                assert(is_new(e, kept) == is_new(e, all));
                lemma_new_behind(e, all, last);
                if identity(e) == identity(last) {
                    assert(identity(all[front.len() + k]) == identity(e));
                }
            }
        }
    }
}

/// Merging a reply that was merged changes nothing.
pub proof fn law_merged_once(responses: Seq<Response>)
    ensures
        merged(seq![merged(responses)]) == merged(responses),
{
    let a = merged(responses);
    lemma_all_of_one(a);
    lemma_new_without_repeats(all_elements(responses));
    lemma_remarks_not_empty(responses);
    let remarks = all_remarks(responses);
    if remarks.len() > 0 {
        lemma_joined_not_empty(remarks, " | "@);
    }
}

/// A JSON value is an object with the given text under "type" and the given number under
/// "id".
pub open spec fn reads_as(contents: Json, element_type: Seq<char>, id: u64) -> bool {
    &&& contents matches Json::Object(members)
    &&& members.contains_key("type"@)
    &&& members["type"@] == Json::Text(element_type)
    &&& members.contains_key("id"@)
    &&& members["id"@] == Json::Unsigned(id)
}

/// Every object with a text under "type" and a natural number under "id" is identified by
/// them, whatever they are, and nothing else is identified.
pub proof fn law_identity_told_by_contents(
    element: serde_json::Value,
    element_type: Seq<char>,
    id: u64,
)
    ensures
        reads_as(json_contents(element), element_type, id) <==> identity(element) == Some(
            (element_type, id),
        ),
{
}

/// No two elements of a merged reply are objects with the same text under "type" and the
/// same number under "id".
pub proof fn law_merged_contents_differ(
    responses: Seq<Response>,
    i: int,
    j: int,
    element_type: Seq<char>,
    id: u64,
)
    requires
        0 <= i < j < merged(responses).elements.len(),
        reads_as(json_contents(merged(responses).elements[i]), element_type, id),
    ensures
        !reads_as(json_contents(merged(responses).elements[j]), element_type, id),
{
    law_merged_elements_differ(responses, i, j);
    law_identity_told_by_contents(merged(responses).elements[i], element_type, id);
    law_identity_told_by_contents(merged(responses).elements[j], element_type, id);
}

/// Two JSON values are objects of the same type and number.
pub open spec fn is_same_element(one: Json, other: Json) -> bool {
    exists|element_type: Seq<char>, id: u64|
        #[trigger] reads_as(one, element_type, id) && reads_as(other, element_type, id)
}

/// One of some replies holds an element of the type and number of the given one.
pub open spec fn is_held(responses: Seq<Response>, element: serde_json::Value) -> bool {
    exists|r: int, k: int|
        0 <= r < responses.len() && 0 <= k < responses[r].elements.len() && is_same_element(
            json_contents(#[trigger] responses[r].elements[k]),
            json_contents(element),
        )
}

/// An element repeats one of some replies exactly if they hold one of its type and number.
proof fn lemma_new_told_by_contents(responses: Seq<Response>, element: serde_json::Value)
    ensures
        is_new(element, all_elements(responses)) == !is_held(responses, element),
{
    let all = all_elements(responses);
    if is_held(responses, element) {
        let (r, k) = choose|r: int, k: int|
            0 <= r < responses.len() && 0 <= k < responses[r].elements.len() && is_same_element(
                json_contents(#[trigger] responses[r].elements[k]),
                json_contents(element),
            );
        let other = responses[r].elements[k];
        let (t, n) = choose|t: Seq<char>, n: u64|
            #[trigger] reads_as(json_contents(other), t, n) && reads_as(
                json_contents(element),
                t,
                n,
            );
        law_identity_told_by_contents(other, t, n);
        law_identity_told_by_contents(element, t, n);
        lemma_all_elements(responses, r, k);
        let at = choose|at: int| 0 <= at < all.len() && all[at] == other;
        assert(identity(all[at]) == identity(element));
    }
    if !is_new(element, all) {
        let at = choose|at: int|
            0 <= at < all.len() && identity(#[trigger] all[at]) == identity(element);
        let other = all[at];
        let (t, n) = identity(element)->0;
        law_identity_told_by_contents(other, t, n);
        law_identity_told_by_contents(element, t, n);
        assert(reads_as(json_contents(other), t, n) && reads_as(json_contents(element), t, n));
        assert(is_same_element(json_contents(other), json_contents(element)));
        assert(all.contains(other));
        lemma_given(responses, other);
        let r = choose|r: int|
            0 <= r < responses.len() && (#[trigger] responses[r]).elements.contains(other);
        let k = choose|k: int|
            0 <= k < responses[r].elements.len() && responses[r].elements[k] == other;
        assert(is_same_element(
            json_contents(responses[r].elements[k]),
            json_contents(element),
        ));
    }
}

/// Without replies nothing is merged, and a reply without elements adds none.
pub proof fn law_no_elements_added(responses: Seq<Response>, remark: Option<Seq<char>>)
    ensures
        merged(Seq::empty()).elements == Seq::<serde_json::Value>::empty(),
        merged(responses.push((Response { elements: Seq::empty(), remark }))).elements == merged(
            responses,
        ).elements,
{
    let last = Response { elements: Seq::empty(), remark };
    assert(responses.push(last).drop_last() == responses);
    assert(all_elements(responses) + last.elements == all_elements(responses));
}

/// One more element at the end of the last reply comes last in the merged reply, unless one
/// of its type and number was in the replies before it: then the merged reply is the same as
/// without it.
pub proof fn law_element_added(
    responses: Seq<Response>,
    elements: Seq<serde_json::Value>,
    remark: Option<Seq<char>>,
    element: serde_json::Value,
)
    ensures
        ({
            let before = responses.push((Response { elements, remark }));
            let after = responses.push((Response { elements: elements.push(element), remark }));
            merged(after).elements == if is_held(before, element) {
                merged(before).elements
            } else {
                merged(before).elements.push(element)
            }
        }),
{
    let before = responses.push(Response { elements, remark });
    let after = responses.push(Response { elements: elements.push(element), remark });
    assert(before.drop_last() == responses);
    assert(after.drop_last() == responses);
    let all = all_elements(before);
    assert(all_elements(after) == all.push(element));
    assert(all.push(element).drop_last() == all);
    lemma_new_told_by_contents(before, element);
}

/// The remark of one more reply is put behind the others with a bar between, unless it is
/// empty or there is none.
pub proof fn law_remark_added(responses: Seq<Response>, last: Response)
    ensures
        merged(Seq::empty()).remark is None,
        merged(responses.push(last)).remark == match last.remark {
            Some(remark) => if remark.len() == 0 {
                merged(responses).remark
            } else {
                match merged(responses).remark {
                    Some(others) => Some(others + " | "@ + remark),
                    None => Some(remark),
                }
            },
            None => merged(responses).remark,
        },
{
    let all = responses.push(last);
    assert(all.drop_last() == responses);
    assert(all_remarks(Seq::<Response>::empty()) == Seq::<Seq<char>>::empty());
    let before = all_remarks(responses);
    if let Some(remark) = last.remark {
        if remark.len() > 0 {
            assert(all_remarks(all) == before.push(remark));
            assert(before.push(remark).drop_last() == before);
        }
    }
}

/// A reply holds its elements, in order, and its remark as it is, an empty one too.
pub proof fn law_reply_held(responses: Seq<RawOverpassResponse>, r: int)
    requires
        0 <= r < responses.len(),
    ensures
        views(responses).len() == responses.len(),
        views(responses)[r].elements == responses[r].elements@,
        views(responses)[r].remark is Some <==> responses[r].remark is Some,
        responses[r].remark is Some ==> views(responses)[r].remark->0 == responses[r].remark->0@,
{
}

} // verus!
