//! What a fetch promises, whatever the servers reply.

use crate::coordinate_system::LLBBox;
use crate::ieee754::difference;
use crate::retrieve_data::adaptive::{
    ask, calls_for_split, fetch, fetch_tiles, Outcome, Progress, MAX_OVERPASS_SPLIT_DEPTH,
};
use crate::retrieve_data::coverage::{law_grid_covers, law_initial_tiles_cover};
use crate::retrieve_data::overpass::{error_calls_for_split, remark_calls_for_split};
use crate::retrieve_data::responses::{
    identity, is_represented, law_merged_elements_complete, law_merged_elements_given, merged,
    Response,
};
use crate::retrieve_data::tiles::{
    at_least_one, first_tiles, grid, initial_tiles, lemma_first_tiles_well_formed, tile_count,
};
use crate::text::lowercase;
use vstd::prelude::*;

verus! {

/// The most replies that a fetch uses: the first cut makes at most 64 tiles, and each of
/// them may be cut into quarters twice.
pub const MOST_REPLIES: usize = 1344;

/// The most replies that a tile uses that was cut out with the given number of cuts.
spec fn most_replies(depth: nat) -> nat
    decreases MAX_OVERPASS_SPLIT_DEPTH - depth,
{
    if depth >= MAX_OVERPASS_SPLIT_DEPTH {
        1
    } else {
        1 + 4 * most_replies(depth + 1)
    }
}

/// There are no more tiles than are looked at.
proof fn lemma_first_tiles_count(bbox: LLBBox, rows: nat, columns: nat, count: nat)
    requires
        columns > 0,
    ensures
        first_tiles(bbox, rows, columns, count).len() <= count,
    decreases count,
{
    if count > 0 {
        lemma_first_tiles_count(bbox, rows, columns, (count - 1) as nat);
    }
}

/// A tile is cut into at most four quarters, and each is a bounding box.
proof fn lemma_quarters(bbox: LLBBox)
    ensures
        grid(bbox, 2, 2).len() <= 4,
        forall|i: int|
            0 <= i < grid(bbox, 2, 2).len() ==> (#[trigger] grid(bbox, 2, 2)[i]).well_formed(),
{
    reveal(grid);
    let two = at_least_one(2);
    assert(two * two == 4) by (nonlinear_arith)
        requires
            two == 2,
    ;
    lemma_first_tiles_count(bbox, 2, 2, 4);
    lemma_first_tiles_well_formed(bbox, 2, 2, 4);
}

/// An area is cut into at most 64 initial tiles, and each is a bounding box.
proof fn lemma_initial(bbox: LLBBox)
    ensures
        initial_tiles(bbox).len() <= 64,
        forall|i: int|
            0 <= i < initial_tiles(bbox).len() ==> (#[trigger] initial_tiles(
                bbox,
            )[i]).well_formed(),
{
    reveal(initial_tiles);
    reveal(grid);
    reveal(tile_count);
    let rows = tile_count(difference(bbox.max.lat, bbox.min.lat));
    let columns = tile_count(difference(bbox.max.lng, bbox.min.lng));
    assert(rows * columns <= 64) by (nonlinear_arith)
        requires
            rows <= 8,
            columns <= 8,
    ;
    lemma_first_tiles_count(bbox, rows, columns, rows * columns);
    lemma_first_tiles_well_formed(bbox, rows, columns, rows * columns);
}

/// With as many replies as it can use, a tile has been fetched.
proof fn lemma_ask_ends(bbox: LLBBox, depth: nat, replies: Seq<Outcome>)
    requires
        replies.len() >= most_replies(depth),
    ensures
        ask(bbox, depth, replies) matches Progress::Ends(_, rest) && rest.len() + most_replies(
            depth,
        ) >= replies.len(),
    decreases MAX_OVERPASS_SPLIT_DEPTH + 1 - depth, 0int,
{
    let quarters = grid(bbox, 2, 2);
    if depth < MAX_OVERPASS_SPLIT_DEPTH && calls_for_split(replies[0]) && quarters.len() > 1 {
        lemma_quarters(bbox);
        let each = most_replies(depth + 1);
        assert(quarters.len() * each <= 4 * each) by (nonlinear_arith)
            requires
                quarters.len() <= 4,
        ;
        lemma_tiles_end(quarters, depth + 1, replies.drop_first(), Seq::empty());
    }
}

proof fn lemma_tiles_end(
    tiles: Seq<LLBBox>,
    depth: nat,
    replies: Seq<Outcome>,
    collected: Seq<Response>,
)
    requires
        depth >= 1,
        replies.len() >= tiles.len() * most_replies(depth),
    ensures
        fetch_tiles(tiles, depth, replies, collected) matches Progress::Ends(_, rest)
            && rest.len() + tiles.len() * most_replies(depth) >= replies.len(),
    decreases MAX_OVERPASS_SPLIT_DEPTH + 1 - depth, tiles.len() + 2,
{
    if tiles.len() > 0 {
        let each = most_replies(depth);
        let left = (tiles.len() - 1) as nat;
        assert(tiles.len() * each == left * each + each) by (nonlinear_arith)
            requires
                tiles.len() == left + 1,
        ;
        assert(0 <= left * each) by (nonlinear_arith);
        assert(fetch(tiles[0], depth, replies) == ask(tiles[0], depth, replies));
        lemma_ask_ends(tiles[0], depth, replies);
        if let Progress::Ends(Ok(response), rest) = fetch(tiles[0], depth, replies) {
            lemma_tiles_end(tiles.drop_first(), depth, rest, collected.push(response));
        }
    }
}

/// A fetch ends: after a fixed number of replies it asks for nothing more, whatever they
/// were.
pub proof fn law_fetch_ends(area: LLBBox, replies: Seq<Outcome>)
    requires
        replies.len() >= MOST_REPLIES,
    ensures
        fetch(area, 0, replies) is Ends,
{
    let tiles = initial_tiles(area);
    reveal_with_fuel(most_replies, 4);
    assert(most_replies(1) == 21);
    assert(most_replies(0) == 85);
    if tiles.len() > 1 {
        lemma_initial(area);
        assert(tiles.len() * 21 <= 1344);
        lemma_tiles_end(tiles, 1, replies, Seq::empty());
    } else {
        lemma_ask_ends(area, 0, replies);
    }
}

/// What a tile uses of the replies. More replies make no difference to it.
proof fn lemma_ask_uses(bbox: LLBBox, depth: nat, replies: Seq<Outcome>) -> (used: Seq<Outcome>)
    requires
        ask(bbox, depth, replies) is Ends,
    ensures
        replies == used + ask(bbox, depth, replies)->Ends_1,
        forall|more: Seq<Outcome>| #[trigger]
            ask(bbox, depth, used + more) == Progress::Ends(
                ask(bbox, depth, replies)->Ends_0,
                more,
            ),
    decreases MAX_OVERPASS_SPLIT_DEPTH + 1 - depth, 0int,
{
    let quarters = grid(bbox, 2, 2);
    let first = replies[0];
    let later = replies.drop_first();
    assert(replies == seq![first] + later);
    if depth < MAX_OVERPASS_SPLIT_DEPTH && calls_for_split(first) && quarters.len() > 1 {
        let inner = lemma_tiles_use(quarters, depth + 1, later, Seq::empty());
        let used = seq![first] + inner;
        let rest = ask(bbox, depth, replies)->Ends_1;
        assert(replies == used + rest);
        assert forall|more: Seq<Outcome>| #[trigger]
            ask(bbox, depth, used + more) == Progress::Ends(
                ask(bbox, depth, replies)->Ends_0,
                more,
            ) by {
            assert((used + more).drop_first() == inner + more);
            assert((used + more)[0] == first);
            assert(fetch_tiles(quarters, depth + 1, inner + more, Seq::empty()) == Progress::Ends(
                ask(bbox, depth, replies)->Ends_0,
                more,
            ));
        }
        used
    } else {
        let used = seq![first];
        assert forall|more: Seq<Outcome>| #[trigger]
            ask(bbox, depth, used + more) == Progress::Ends(
                ask(bbox, depth, replies)->Ends_0,
                more,
            ) by {
            assert((used + more).drop_first() == more);
        }
        used
    }
}

proof fn lemma_tiles_use(
    tiles: Seq<LLBBox>,
    depth: nat,
    replies: Seq<Outcome>,
    collected: Seq<Response>,
) -> (used: Seq<Outcome>)
    requires
        depth >= 1,
        fetch_tiles(tiles, depth, replies, collected) is Ends,
    ensures
        replies == used + fetch_tiles(tiles, depth, replies, collected)->Ends_1,
        forall|more: Seq<Outcome>| #[trigger]
            fetch_tiles(tiles, depth, used + more, collected) == Progress::Ends(
                fetch_tiles(tiles, depth, replies, collected)->Ends_0,
                more,
            ),
    decreases MAX_OVERPASS_SPLIT_DEPTH + 1 - depth, tiles.len() + 2,
{
    let end = fetch_tiles(tiles, depth, replies, collected);
    if tiles.len() == 0 {
        let used = Seq::<Outcome>::empty();
        assert(replies == used + replies);
        assert forall|more: Seq<Outcome>| #[trigger]
            fetch_tiles(tiles, depth, used + more, collected) == Progress::Ends(
                end->Ends_0,
                more,
            ) by {
            assert(used + more == more);
        }
        used
    } else {
        assert(fetch(tiles[0], depth, replies) == ask(tiles[0], depth, replies));
        let own = lemma_ask_uses(tiles[0], depth, replies);
        match ask(tiles[0], depth, replies) {
            Progress::Ends(Ok(response), rest) => {
                let others = lemma_tiles_use(
                    tiles.drop_first(),
                    depth,
                    rest,
                    collected.push(response),
                );
                let used = own + others;
                assert(replies == used + end->Ends_1);
                assert forall|more: Seq<Outcome>| #[trigger]
                    fetch_tiles(tiles, depth, used + more, collected) == Progress::Ends(
                        end->Ends_0,
                        more,
                    ) by {
                    assert(used + more == own + (others + more));
                    assert(ask(tiles[0], depth, own + (others + more)) == Progress::Ends(
                        Ok(response),
                        others + more,
                    ));
                    assert(fetch(tiles[0], depth, used + more) == ask(
                        tiles[0],
                        depth,
                        used + more,
                    ));
                    assert(fetch_tiles(
                        tiles.drop_first(),
                        depth,
                        others + more,
                        collected.push(response),
                    ) == Progress::Ends(end->Ends_0, more));
                }
                used
            },
            _ => {
                assert forall|more: Seq<Outcome>| #[trigger]
                    fetch_tiles(tiles, depth, own + more, collected) == Progress::Ends(
                        end->Ends_0,
                        more,
                    ) by {
                    assert(fetch(tiles[0], depth, own + more) == ask(tiles[0], depth, own + more));
                }
                own
            },
        }
    }
}

/// A failure for which smaller tiles are no help ends the fetch of a tile that asked.
proof fn lemma_ask_fails(
    bbox: LLBBox,
    depth: nat,
    replies: Seq<Outcome>,
    failure: Outcome,
)
    requires
        failure is Err,
        !calls_for_split(failure),
        ask(bbox, depth, replies) is Asks,
    ensures
        ask(bbox, depth, replies.push(failure)) == Progress::Ends(failure, Seq::empty()),
    decreases MAX_OVERPASS_SPLIT_DEPTH + 1 - depth, 0int,
{
    let all = replies.push(failure);
    if replies.len() == 0 {
        assert(all.drop_first() == Seq::<Outcome>::empty());
    } else {
        assert(all.drop_first() == replies.drop_first().push(failure));
        lemma_tiles_fail(
            grid(bbox, 2, 2),
            depth + 1,
            replies.drop_first(),
            Seq::empty(),
            failure,
        );
    }
}

proof fn lemma_tiles_fail(
    tiles: Seq<LLBBox>,
    depth: nat,
    replies: Seq<Outcome>,
    collected: Seq<Response>,
    failure: Outcome,
)
    requires
        depth >= 1,
        failure is Err,
        !calls_for_split(failure),
        fetch_tiles(tiles, depth, replies, collected) is Asks,
    ensures
        fetch_tiles(tiles, depth, replies.push(failure), collected) == Progress::Ends(
            failure,
            Seq::empty(),
        ),
    decreases MAX_OVERPASS_SPLIT_DEPTH + 1 - depth, tiles.len() + 2,
{
    let all = replies.push(failure);
    assert(fetch(tiles[0], depth, replies) == ask(tiles[0], depth, replies));
    assert(fetch(tiles[0], depth, all) == ask(tiles[0], depth, all));
    match ask(tiles[0], depth, replies) {
        Progress::Asks(_) => {
            lemma_ask_fails(tiles[0], depth, replies, failure);
        },
        Progress::Ends(Ok(response), rest) => {
            let own = lemma_ask_uses(tiles[0], depth, replies);
            assert(all == own + rest.push(failure));
            assert(ask(tiles[0], depth, own + rest.push(failure)) == Progress::Ends(
                Ok(response),
                rest.push(failure),
            ));
            lemma_tiles_fail(
                tiles.drop_first(),
                depth,
                rest,
                collected.push(response),
                failure,
            );
        },
        Progress::Ends(Err(_), _) => {},
    }
}

/// A failure for which smaller tiles are no help ends the whole fetch with its message,
/// whatever other tiles gave.
pub proof fn law_failure_ends_fetch(area: LLBBox, replies: Seq<Outcome>, message: Seq<char>)
    requires
        fetch(area, 0, replies) is Asks,
        !calls_for_split(Err(message)),
    ensures
        fetch(area, 0, replies.push(Err(message))) == Progress::Ends(
            Err::<Response, Seq<char>>(message),
            Seq::empty(),
        ),
{
    let failure: Outcome = Err(message);
    let tiles = initial_tiles(area);
    if tiles.len() > 1 {
        lemma_tiles_fail(tiles, 1, replies, Seq::empty(), failure);
    } else {
        lemma_ask_fails(area, 0, replies, failure);
    }
}

/// An area that is small enough is fetched with one request, if the reply does not call for
/// smaller tiles: what the server sent is what the fetch gives.
pub proof fn law_small_area_fetched_at_once(area: LLBBox, reply: Outcome)
    requires
        initial_tiles(area).len() <= 1,
        !calls_for_split(reply),
    ensures
        fetch(area, 0, Seq::empty()) == Progress::Asks(area),
        fetch(area, 0, seq![reply]) == Progress::Ends(reply, Seq::empty()),
{
    assert(seq![reply].drop_first() == Seq::<Outcome>::empty());
}

/// What tiles give is a merge that begins with what was collected before.
proof fn lemma_merges(
    tiles: Seq<LLBBox>,
    depth: nat,
    replies: Seq<Outcome>,
    collected: Seq<Response>,
) -> (all: Seq<Response>)
    requires
        fetch_tiles(tiles, depth, replies, collected) matches Progress::Ends(Ok(_), _),
    ensures
        fetch_tiles(tiles, depth, replies, collected)->Ends_0 == Ok::<Response, Seq<char>>(
            merged(all),
        ),
        collected.len() <= all.len(),
        forall|i: int| 0 <= i < collected.len() ==> #[trigger] all[i] == collected[i],
    decreases tiles.len(),
{
    if tiles.len() == 0 {
        collected
    } else {
        let response = fetch(tiles[0], depth, replies)->Ends_0->Ok_0;
        let rest = fetch(tiles[0], depth, replies)->Ends_1;
        let more = collected.push(response);
        let all = lemma_merges(tiles.drop_first(), depth, rest, more);
        assert forall|i: int| 0 <= i < collected.len() implies #[trigger] all[i] == collected[i] by {
            assert(all[i] == more[i]);
        }
        all
    }
}

/// Every element of a reply is in some elements, it or one with its identity.
pub open spec fn holds_all_of(elements: Seq<serde_json::Value>, reply: Response) -> bool {
    forall|e: int|
        0 <= e < reply.elements.len() ==> is_represented(#[trigger] reply.elements[e], elements)
}

proof fn lemma_holds_all_of_merged(all: Seq<Response>, r: int, reply: Response)
    requires
        0 <= r < all.len(),
        holds_all_of(all[r].elements, reply),
    ensures
        holds_all_of(merged(all).elements, reply),
{
    let part = all[r].elements;
    let whole = merged(all).elements;
    assert forall|e: int| 0 <= e < reply.elements.len() implies is_represented(
        #[trigger] reply.elements[e],
        whole,
    ) by {
        let element = reply.elements[e];
        assert(is_represented(element, part));
        match identity(element) {
            Some(own) => {
                let k = choose|k: int|
                    0 <= k < part.len() && identity(#[trigger] part[k]) == Some(own);
                law_merged_elements_complete(all, r, k);
            },
            None => {
                let k = choose|k: int| 0 <= k < part.len() && part[k] == element;
                law_merged_elements_complete(all, r, k);
            },
        }
    }
}

/// One of some replies was given for a tile that holds the point, and all of its elements
/// are in the result. The tile is the one that is asked for after the replies before it.
pub open spec fn is_answered(
    asked: spec_fn(Seq<Outcome>) -> Progress,
    replies: Seq<Outcome>,
    result: Response,
    lat: u64,
    lng: u64,
) -> bool {
    exists|j: int|
        {
            &&& 0 <= j < replies.len()
            &&& asked(#[trigger] replies.take(j)) matches Progress::Asks(tile)
            &&& tile.holds(lat, lng)
            &&& replies[j] matches Ok(reply)
            &&& holds_all_of(result.elements, reply)
        }
}

proof fn lemma_ask_answers(bbox: LLBBox, depth: nat, replies: Seq<Outcome>, lat: u64, lng: u64)
    requires
        bbox.well_formed(),
        bbox.holds(lat, lng),
        ask(bbox, depth, replies) matches Progress::Ends(Ok(_), _),
    ensures
        is_answered(
            |given: Seq<Outcome>| ask(bbox, depth, given),
            replies,
            ask(bbox, depth, replies)->Ends_0->Ok_0,
            lat,
            lng,
        ),
    decreases MAX_OVERPASS_SPLIT_DEPTH + 1 - depth, 0int,
{
    let asked = |given: Seq<Outcome>| ask(bbox, depth, given);
    let quarters = grid(bbox, 2, 2);
    let result = ask(bbox, depth, replies)->Ends_0->Ok_0;
    if depth < MAX_OVERPASS_SPLIT_DEPTH && calls_for_split(replies[0]) && quarters.len() > 1 {
        lemma_quarters(bbox);
        law_grid_covers(bbox, 2, 2, lat, lng);
        let i = choose|i: int| 0 <= i < quarters.len() && (#[trigger] quarters[i]).holds(lat, lng);
        let later = replies.drop_first();
        lemma_tiles_answer(quarters, depth + 1, later, Seq::empty(), i, lat, lng);
        let inner = |given: Seq<Outcome>| fetch_tiles(quarters, depth + 1, given, Seq::empty());
        let j = choose|j: int|
            {
                &&& 0 <= j < later.len()
                &&& inner(#[trigger] later.take(j)) matches Progress::Asks(tile)
                &&& tile.holds(lat, lng)
                &&& later[j] matches Ok(reply)
                &&& holds_all_of(result.elements, reply)
            };
        assert(replies.take(j + 1).drop_first() == later.take(j));
        assert(asked(replies.take(j + 1)) == inner(later.take(j)));
        assert(replies[j + 1] == later[j]);
    } else {
        assert(asked(replies.take(0)) == Progress::Asks(bbox));
        assert forall|e: int| 0 <= e < result.elements.len() implies is_represented(
            #[trigger] result.elements[e],
            result.elements,
        ) by {
            assert(identity(result.elements[e]) == identity(result.elements[e]));
        }
        assert(holds_all_of(result.elements, result));
    }
}

proof fn lemma_tiles_answer(
    tiles: Seq<LLBBox>,
    depth: nat,
    replies: Seq<Outcome>,
    collected: Seq<Response>,
    at: int,
    lat: u64,
    lng: u64,
)
    requires
        depth >= 1,
        0 <= at < tiles.len(),
        forall|i: int| 0 <= i < tiles.len() ==> (#[trigger] tiles[i]).well_formed(),
        tiles[at].holds(lat, lng),
        fetch_tiles(tiles, depth, replies, collected) matches Progress::Ends(Ok(_), _),
    ensures
        is_answered(
            |given: Seq<Outcome>| fetch_tiles(tiles, depth, given, collected),
            replies,
            fetch_tiles(tiles, depth, replies, collected)->Ends_0->Ok_0,
            lat,
            lng,
        ),
    decreases MAX_OVERPASS_SPLIT_DEPTH + 1 - depth, tiles.len() + 2,
{
    let asked = |given: Seq<Outcome>| fetch_tiles(tiles, depth, given, collected);
    let result = fetch_tiles(tiles, depth, replies, collected)->Ends_0->Ok_0;
    let first = tiles[0];
    assert(fetch(first, depth, replies) == ask(first, depth, replies));
    let own = ask(first, depth, replies)->Ends_0->Ok_0;
    let rest = ask(first, depth, replies)->Ends_1;
    let used = lemma_ask_uses(first, depth, replies);
    let more = collected.push(own);
    if at == 0 {
        lemma_ask_answers(first, depth, replies, lat, lng);
        let inner = |given: Seq<Outcome>| ask(first, depth, given);
        let j = choose|j: int|
            {
                &&& 0 <= j < replies.len()
                &&& inner(#[trigger] replies.take(j)) matches Progress::Asks(tile)
                &&& tile.holds(lat, lng)
                &&& replies[j] matches Ok(reply)
                &&& holds_all_of(own.elements, reply)
            };
        let given = replies.take(j);
        assert(fetch(first, depth, given) == ask(first, depth, given));
        assert(asked(given) == inner(given));
        let all = lemma_merges(tiles.drop_first(), depth, rest, more);
        assert(all[collected.len() as int] == more[collected.len() as int]);
        lemma_holds_all_of_merged(all, collected.len() as int, replies[j]->Ok_0);
    } else {
        let left = tiles.drop_first();
        assert forall|i: int| 0 <= i < left.len() implies (#[trigger] left[i]).well_formed() by {
            assert(left[i] == tiles[i + 1]);
        }
        lemma_tiles_answer(left, depth, rest, more, at - 1, lat, lng);
        let inner = |given: Seq<Outcome>| fetch_tiles(left, depth, given, more);
        let j = choose|j: int|
            {
                &&& 0 <= j < rest.len()
                &&& inner(#[trigger] rest.take(j)) matches Progress::Asks(tile)
                &&& tile.holds(lat, lng)
                &&& rest[j] matches Ok(reply)
                &&& holds_all_of(result.elements, reply)
            };
        let given = replies.take(used.len() + j);
        assert(given == used + rest.take(j));
        assert(fetch(first, depth, given) == ask(first, depth, given));
        assert(ask(first, depth, used + rest.take(j)) == Progress::Ends(
            Ok::<Response, Seq<char>>(own),
            rest.take(j),
        ));
        assert(asked(given) == inner(rest.take(j)));
        assert(replies[used.len() + j] == rest[j]);
    }
}

/// What a fetch gives leaves no gap: for every point of the area, a tile that holds the
/// point was asked for, a server sent its data, and all of that data is in the result.
pub proof fn law_fetch_leaves_no_gap(
    area: LLBBox,
    replies: Seq<Outcome>,
    lat: u64,
    lng: u64,
)
    requires
        area.well_formed(),
        area.holds(lat, lng),
        fetch(area, 0, replies) matches Progress::Ends(Ok(_), _),
    ensures
        is_answered(
            |given: Seq<Outcome>| fetch(area, 0, given),
            replies,
            fetch(area, 0, replies)->Ends_0->Ok_0,
            lat,
            lng,
        ),
{
    let asked = |given: Seq<Outcome>| fetch(area, 0, given);
    let result = fetch(area, 0, replies)->Ends_0->Ok_0;
    let tiles = initial_tiles(area);
    if tiles.len() > 1 {
        lemma_initial(area);
        law_initial_tiles_cover(area, lat, lng);
        let i = choose|i: int| 0 <= i < tiles.len() && (#[trigger] tiles[i]).holds(lat, lng);
        lemma_tiles_answer(tiles, 1, replies, Seq::empty(), i, lat, lng);
        let inner = |given: Seq<Outcome>| fetch_tiles(tiles, 1, given, Seq::empty());
        let j = choose|j: int|
            {
                &&& 0 <= j < replies.len()
                &&& inner(#[trigger] replies.take(j)) matches Progress::Asks(tile)
                &&& tile.holds(lat, lng)
                &&& replies[j] matches Ok(reply)
                &&& holds_all_of(result.elements, reply)
            };
        assert(asked(replies.take(j)) == inner(replies.take(j)));
    } else {
        lemma_ask_answers(area, 0, replies, lat, lng);
        let inner = |given: Seq<Outcome>| ask(area, 0, given);
        let j = choose|j: int|
            {
                &&& 0 <= j < replies.len()
                &&& inner(#[trigger] replies.take(j)) matches Progress::Asks(tile)
                &&& tile.holds(lat, lng)
                &&& replies[j] matches Ok(reply)
                &&& holds_all_of(result.elements, reply)
            };
        assert(asked(replies.take(j)) == inner(replies.take(j)));
    }
}

/// A reply calls for smaller tiles by its remark if it has one, a failure by its message.
pub proof fn law_what_calls_for_split(response: Response, message: Seq<char>)
    ensures
        calls_for_split(Ok(response)) <==> response.remark is Some && remark_calls_for_split(
            lowercase(response.remark->0),
        ),
        calls_for_split(Err(message)) <==> error_calls_for_split(lowercase(message)),
{
}

/// The first request is for the first of the initial tiles, or for the whole area if that is
/// not cut.
pub proof fn law_first_request(area: LLBBox)
    ensures
        fetch(area, 0, Seq::empty()) == Progress::Asks(
            if initial_tiles(area).len() > 1 {
                initial_tiles(area)[0]
            } else {
                area
            },
        ),
{
    let tiles = initial_tiles(area);
    if tiles.len() > 1 {
        assert(fetch(tiles[0], 1, Seq::empty()) == Progress::Asks(tiles[0]));
    }
}

/// After its reply a tile is cut into quarters, and the first of them is asked for, exactly
/// if the reply calls for it, the tile was cut out with fewer than three cuts, and there is
/// more than one quarter. Else the tile has been fetched, and the reply is what it gives.
pub proof fn law_reply_to_a_tile(bbox: LLBBox, depth: nat, reply: Outcome)
    ensures
        ({
            let cut = calls_for_split(reply) && depth < 3 && grid(bbox, 2, 2).len() > 1;
            &&& ask(bbox, depth, Seq::empty()) == Progress::Asks(bbox)
            &&& cut ==> ask(bbox, depth, seq![reply]) == Progress::Asks(grid(bbox, 2, 2)[0])
            &&& !cut ==> ask(bbox, depth, seq![reply]) == Progress::Ends(reply, Seq::empty())
        }),
{
    let none = Seq::<Outcome>::empty();
    let quarters = grid(bbox, 2, 2);
    assert(seq![reply].drop_first() =~= none);
    if quarters.len() > 0 {
        assert(fetch(quarters[0], depth + 1, none) == ask(quarters[0], depth + 1, none));
    }
}

/// Tiles are fetched one after another: once the first has been fetched with all replies,
/// the next one is asked for, and after the last one everything that they gave is merged, in
/// order. A failure of one is the failure of all.
pub proof fn law_tiles_one_after_another(
    tiles: Seq<LLBBox>,
    depth: nat,
    replies: Seq<Outcome>,
    collected: Seq<Response>,
)
    requires
        depth >= 1,
        tiles.len() > 0,
    ensures
        ({
            let first = ask(tiles[0], depth, replies);
            let all = fetch_tiles(tiles, depth, replies, collected);
            &&& first matches Progress::Asks(tile) ==> all == Progress::Asks(tile)
            &&& first matches Progress::Ends(Ok(given), rest) ==> (rest.len() == 0 && tiles.len()
                != 1 ==> all == Progress::Asks(tiles[1]))
            &&& first matches Progress::Ends(Ok(given), rest) ==> all == fetch_tiles(
                tiles.drop_first(),
                depth,
                rest,
                collected.push(given),
            )
            &&& first matches Progress::Ends(Ok(given), rest) ==> (tiles.len() == 1 ==> all
                == Progress::Ends(Ok(merged(collected.push(given))), rest))
            &&& first matches Progress::Ends(Err(message), rest) ==> all == Progress::Ends(
                Err(message),
                rest,
            )
        }),
{
    assert(fetch(tiles[0], depth, replies) == ask(tiles[0], depth, replies));
    match ask(tiles[0], depth, replies) {
        Progress::Ends(Ok(given), rest) => {
            let left = tiles.drop_first();
            if rest.len() == 0 && tiles.len() > 1 {
                assert(left[0] == tiles[1]);
                assert(fetch(left[0], depth, rest) == ask(left[0], depth, rest));
            }
        },
        _ => {},
    }
}

/// An element is in one of the replies that brought data.
pub open spec fn was_sent(element: serde_json::Value, replies: Seq<Outcome>) -> bool {
    exists|j: int|
        0 <= j < replies.len() && (#[trigger] replies[j] matches Ok(reply)
            && reply.elements.contains(element))
}

proof fn lemma_sent_in_more(
    element: serde_json::Value,
    fewer: Seq<Outcome>,
    more: Seq<Outcome>,
    skipped: int,
)
    requires
        was_sent(element, fewer),
        0 <= skipped,
        fewer.len() + skipped <= more.len(),
        forall|j: int| 0 <= j < fewer.len() ==> #[trigger] fewer[j] == more[skipped + j],
    ensures
        was_sent(element, more),
{
    let j = choose|j: int|
        0 <= j < fewer.len() && (#[trigger] fewer[j] matches Ok(reply) && reply.elements.contains(
            element,
        ));
    assert(more[skipped + j] matches Ok(reply) && reply.elements.contains(element));
}

proof fn lemma_ask_adds_nothing(
    bbox: LLBBox,
    depth: nat,
    replies: Seq<Outcome>,
    element: serde_json::Value,
)
    requires
        ask(bbox, depth, replies) matches Progress::Ends(Ok(given), _)
            && given.elements.contains(element),
    ensures
        was_sent(element, replies),
    decreases MAX_OVERPASS_SPLIT_DEPTH + 1 - depth, 0int,
{
    let quarters = grid(bbox, 2, 2);
    let later = replies.drop_first();
    if depth < MAX_OVERPASS_SPLIT_DEPTH && calls_for_split(replies[0]) && quarters.len() > 1 {
        lemma_tiles_add_nothing(quarters, depth + 1, later, Seq::empty(), element);
        lemma_sent_in_more(element, later, replies, 1);
    } else {
        assert(replies[0] matches Ok(reply) && reply.elements.contains(element));
    }
}

proof fn lemma_tiles_add_nothing(
    tiles: Seq<LLBBox>,
    depth: nat,
    replies: Seq<Outcome>,
    collected: Seq<Response>,
    element: serde_json::Value,
)
    requires
        depth >= 1,
        fetch_tiles(tiles, depth, replies, collected) matches Progress::Ends(Ok(given), _)
            && given.elements.contains(element),
        forall|c: int|
            0 <= c < collected.len() ==> !(#[trigger] collected[c]).elements.contains(element),
    ensures
        was_sent(element, replies),
    decreases MAX_OVERPASS_SPLIT_DEPTH + 1 - depth, tiles.len() + 2,
{
    if tiles.len() == 0 {
        let all = merged(collected).elements;
        let i = choose|i: int| 0 <= i < all.len() && all[i] == element;
        law_merged_elements_given(collected, i);
    } else {
        assert(fetch(tiles[0], depth, replies) == ask(tiles[0], depth, replies));
        let own = ask(tiles[0], depth, replies)->Ends_0->Ok_0;
        let rest = ask(tiles[0], depth, replies)->Ends_1;
        let used = lemma_ask_uses(tiles[0], depth, replies);
        if own.elements.contains(element) {
            lemma_ask_adds_nothing(tiles[0], depth, replies, element);
        } else {
            let more = collected.push(own);
            assert forall|c: int| 0 <= c < more.len() implies !(
            #[trigger] more[c]).elements.contains(element) by {
                if c < collected.len() {
                    assert(more[c] == collected[c]);
                }
            }
            lemma_tiles_add_nothing(tiles.drop_first(), depth, rest, more, element);
            assert forall|j: int| 0 <= j < rest.len() implies #[trigger] rest[j] == replies[
            used.len() + j] by {}
            lemma_sent_in_more(element, rest, replies, used.len() as int);
        }
    }
}

/// A fetch adds nothing: every element of its result was sent by a server.
pub proof fn law_fetch_adds_nothing(
    area: LLBBox,
    replies: Seq<Outcome>,
    element: serde_json::Value,
)
    requires
        fetch(area, 0, replies) matches Progress::Ends(Ok(given), _) && given.elements.contains(
            element,
        ),
    ensures
        was_sent(element, replies),
{
    let tiles = initial_tiles(area);
    if tiles.len() > 1 {
        lemma_tiles_add_nothing(tiles, 1, replies, Seq::empty(), element);
    } else {
        lemma_ask_adds_nothing(area, 0, replies, element);
    }
}

} // verus!
