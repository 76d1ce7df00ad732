//! Fetching an area tile by tile, with smaller tiles where a server cannot cope.

use crate::coordinate_system::LLBBox;
use crate::retrieve_data::overpass::{
    error_calls_for_split, overpass_error_suggests_split, overpass_remark_suggests_split,
    remark_calls_for_split,
};
use crate::retrieve_data::responses::{
    merge_raw_overpass_responses, merged, views, RawOverpassResponse, Response,
};
use crate::retrieve_data::tiles::{
    grid, initial_tiles, initial_tiles_for_bbox, split_bbox_into_grid,
};
use crate::text::lowercase;
use vstd::prelude::*;

verus! {

/// How often a tile may be cut into smaller ones.
pub const MAX_OVERPASS_SPLIT_DEPTH: u8 = 3;

/// A reply to the request for a tile, or the message of its failure.
pub type Outcome = Result<Response, Seq<char>>;

/// What a reply holds.
pub open spec fn outcome_of(reply: Result<RawOverpassResponse, String>) -> Outcome {
    match reply {
        Ok(response) => Ok(response@),
        Err(message) => Err(message@),
    }
}

/// How far a fetch gets with some replies.
pub enum Progress {
    /// It needs the reply for a tile.
    Asks(LLBBox),
    /// It has ended, and did not use the replies that are left.
    Ends(Outcome, Seq<Outcome>),
}

/// A reply calls for smaller tiles.
pub open spec fn calls_for_split(outcome: Outcome) -> bool {
    match outcome {
        Ok(response) => match response.remark {
            Some(remark) => remark_calls_for_split(lowercase(remark)),
            None => false,
        },
        Err(message) => error_calls_for_split(lowercase(message)),
    }
}

/// Fetches a tile with one request. If the reply calls for smaller tiles and the tile
/// may still be cut, its quarters are fetched in its place.
pub open spec fn ask(bbox: LLBBox, depth: nat, replies: Seq<Outcome>) -> Progress
    decreases MAX_OVERPASS_SPLIT_DEPTH + 1 - depth, 0int,
{
    if replies.len() == 0 {
        Progress::Asks(bbox)
    } else {
        let quarters = grid(bbox, 2, 2);
        let rest = replies.drop_first();
        if depth < MAX_OVERPASS_SPLIT_DEPTH && calls_for_split(replies[0]) && quarters.len() > 1 {
            fetch_tiles(quarters, depth + 1, rest, Seq::empty())
        } else {
            Progress::Ends(replies[0], rest)
        }
    }
}

/// Fetches an area. One that has not been cut yet is cut into its initial tiles first.
pub open spec fn fetch(bbox: LLBBox, depth: nat, replies: Seq<Outcome>) -> Progress
    decreases MAX_OVERPASS_SPLIT_DEPTH + 1 - depth, 1int,
{
    let tiles = initial_tiles(bbox);
    if depth == 0 && tiles.len() > 1 {
        fetch_tiles(tiles, 1, replies, Seq::empty())
    } else {
        ask(bbox, depth, replies)
    }
}

/// Fetches tiles one after another, and merges what they give with what was collected
/// before. The first failure ends it.
pub open spec fn fetch_tiles(
    tiles: Seq<LLBBox>,
    depth: nat,
    replies: Seq<Outcome>,
    collected: Seq<Response>,
) -> Progress
    decreases MAX_OVERPASS_SPLIT_DEPTH + 1 - depth, tiles.len() + 2,
{
    if tiles.len() == 0 {
        Progress::Ends(Ok(merged(collected)), replies)
    } else {
        match fetch(tiles[0], depth, replies) {
            Progress::Asks(tile) => Progress::Asks(tile),
            Progress::Ends(Ok(response), rest) => fetch_tiles(
                tiles.drop_first(),
                depth,
                rest,
                collected.push(response),
            ),
            Progress::Ends(Err(message), rest) => Progress::Ends(Err(message), rest),
        }
    }
}

/// Tiles that are being fetched: those that are left, the last one first, and what the
/// others gave.
struct Level {
    left: Vec<LLBBox>,
    depth: u8,
    collected: Vec<RawOverpassResponse>,
}

/// Where a fetch stands.
enum Stage {
    Asking { bbox: LLBBox, depth: u8 },
    Ended(Result<RawOverpassResponse, String>),
}

/// What becomes of the whole fetch when the tile at the innermost level gets as far as
/// `progress` says.
spec fn resume(levels: Seq<Level>, progress: Progress) -> Progress
    decreases levels.len(),
{
    match progress {
        Progress::Asks(tile) => Progress::Asks(tile),
        Progress::Ends(outcome, rest) => if levels.len() == 0 {
            progress
        } else {
            let level = levels.last();
            match outcome {
                Ok(response) => resume(
                    levels.drop_last(),
                    fetch_tiles(
                        level.left@.reverse(),
                        level.depth as nat,
                        rest,
                        views(level.collected@).push(response),
                    ),
                ),
                Err(message) => resume(levels.drop_last(), progress),
            }
        },
    }
}

/// How far a fetch gets from where it stands, with the replies that are still to come.
spec fn continuation(levels: Seq<Level>, stage: Stage, replies: Seq<Outcome>) -> Progress {
    resume(
        levels,
        match stage {
            Stage::Asking { bbox, depth } => ask(bbox, depth as nat, replies),
            Stage::Ended(reply) => Progress::Ends(outcome_of(reply), replies),
        },
    )
}

/// The tiles at every level are bounding boxes, and come from a cut.
spec fn sound(levels: Seq<Level>) -> bool {
    forall|i: int|
        0 <= i < levels.len() ==> {
            &&& 1 <= (#[trigger] levels[i]).depth <= MAX_OVERPASS_SPLIT_DEPTH
            &&& forall|j: int|
                0 <= j < levels[i].left@.len() ==> (#[trigger] levels[i].left@[j]).well_formed()
        }
}

/// Fetching tiles is asking for the first of them with the others waiting.
proof fn lemma_enter_level(
    levels: Seq<Level>,
    level: Level,
    tiles: Seq<LLBBox>,
    replies: Seq<Outcome>,
)
    requires
        tiles.len() > 0,
        level.left@.reverse() == tiles.drop_first(),
        level.depth >= 1,
    ensures
        resume(levels.push(level), ask(tiles[0], level.depth as nat, replies)) == resume(
            levels,
            fetch_tiles(tiles, level.depth as nat, replies, views(level.collected@)),
        ),
{
    let depth = level.depth as nat;
    let inner = levels.push(level);
    assert(inner.drop_last() == levels);
    assert(fetch(tiles[0], depth, replies) == ask(tiles[0], depth, replies));
    match ask(tiles[0], depth, replies) {
        Progress::Asks(tile) => {},
        Progress::Ends(Ok(response), rest) => {},
        Progress::Ends(Err(message), rest) => {},
    }
}

/// The tiles in reverse order.
fn reversed(tiles: &Vec<LLBBox>) -> (turned: Vec<LLBBox>)
    ensures
        turned@ == tiles@.reverse(),
{
    let mut turned: Vec<LLBBox> = Vec::new();
    let mut left: usize = tiles.len();
    while left > 0
        invariant
            left <= tiles@.len(),
            turned@ == tiles@.skip(left as int).reverse(),
        decreases left,
    {
        left = left - 1;
        turned.push(tiles[left]);
        proof {
            assert(tiles@.skip(left as int).reverse() == tiles@.skip(left + 1).reverse().push(
                tiles@[left as int],
            ));
        }
    }
    proof {
        assert(tiles@.skip(0) == tiles@);
    }
    turned
}

/// Starts with the first of some tiles, and lets the others wait.
fn descend(levels: &mut Vec<Level>, tiles: Vec<LLBBox>, depth: u8) -> (stage: Stage)
    requires
        sound(old(levels)@),
        tiles@.len() > 0,
        forall|i: int| 0 <= i < tiles@.len() ==> (#[trigger] tiles@[i]).well_formed(),
        1 <= depth <= MAX_OVERPASS_SPLIT_DEPTH,
    ensures
        sound(final(levels)@),
        stage matches Stage::Asking { bbox, depth: at } && bbox.well_formed() && at == depth,
        forall|replies: Seq<Outcome>| #[trigger]
            continuation(final(levels)@, stage, replies) == resume(
                old(levels)@,
                fetch_tiles(tiles@, depth as nat, replies, Seq::empty()),
            ),
{
    let first = tiles[0];
    let mut left = reversed(&tiles);
    left.pop();
    let ghost before = levels@;
    let level = Level { left, depth, collected: Vec::new() };
    proof {
        assert(level.left@.reverse() == tiles@.drop_first());
        assert(views(level.collected@) == Seq::<Response>::empty());
        assert forall|j: int| 0 <= j < level.left@.len() implies (
        #[trigger] level.left@[j]).well_formed() by {
            assert(level.left@[j] == tiles@[tiles@.len() - 1 - j]);
        }
        assert forall|replies: Seq<Outcome>| #[trigger]
            continuation(before.push(level), Stage::Asking { bbox: first, depth }, replies)
                == resume(before, fetch_tiles(tiles@, depth as nat, replies, Seq::empty())) by {
            lemma_enter_level(before, level, tiles@, replies);
        }
    }
    levels.push(level);
    Stage::Asking { bbox: first, depth }
}

/// Ending the innermost tile with `outcome` takes a fetch where ending it with `given`
/// took it before.
spec fn same_course(levels: Seq<Level>, outcome: Outcome, base: Seq<Level>, given: Outcome) -> bool {
    forall|replies: Seq<Outcome>| #[trigger]
        resume(levels, Progress::Ends(outcome, replies)) == resume(
            base,
            Progress::Ends(given, replies),
        )
}

/// A failure leaves a level.
proof fn lemma_level_fails(all: Seq<Level>, message: Seq<char>, base: Seq<Level>, given: Outcome)
    requires
        all.len() > 0,
        same_course(all, Err(message), base, given),
    ensures
        same_course(all.drop_last(), Err(message), base, given),
{
    assert forall|replies: Seq<Outcome>| #[trigger]
        resume(all.drop_last(), Progress::Ends(Err(message), replies)) == resume(
            base,
            Progress::Ends(given, replies),
        ) by {
        assert(resume(all, Progress::Ends(Err(message), replies)) == resume(
            base,
            Progress::Ends(given, replies),
        ));
    }
}

/// A level without waiting tiles ends with all that it collected.
proof fn lemma_level_ends(
    all: Seq<Level>,
    response: Response,
    base: Seq<Level>,
    given: Outcome,
)
    requires
        all.len() > 0,
        all.last().left@.len() == 0,
        same_course(all, Ok(response), base, given),
    ensures
        same_course(
            all.drop_last(),
            Ok(merged(views(all.last().collected@).push(response))),
            base,
            given,
        ),
{
    let level = all.last();
    let collected = views(level.collected@).push(response);
    assert(level.left@.reverse() =~= Seq::<LLBBox>::empty());
    assert forall|replies: Seq<Outcome>| #[trigger]
        resume(all.drop_last(), Progress::Ends(Ok(merged(collected)), replies)) == resume(
            base,
            Progress::Ends(given, replies),
        ) by {
        assert(resume(all, Progress::Ends(Ok(response), replies)) == resume(
            base,
            Progress::Ends(given, replies),
        ));
        assert(fetch_tiles(level.left@.reverse(), level.depth as nat, replies, collected)
            == Progress::Ends(Ok(merged(collected)), replies));
    }
}

/// A level with a waiting tile goes on with it.
proof fn lemma_level_goes_on(
    all: Seq<Level>,
    response: Response,
    again: Level,
    base: Seq<Level>,
    given: Outcome,
)
    requires
        all.len() > 0,
        all.last().left@.len() > 0,
        all.last().depth >= 1,
        again.left@ == all.last().left@.drop_last(),
        again.depth == all.last().depth,
        views(again.collected@) == views(all.last().collected@).push(response),
        same_course(all, Ok(response), base, given),
    ensures
        forall|replies: Seq<Outcome>| #[trigger]
            continuation(
                all.drop_last().push(again),
                Stage::Asking { bbox: all.last().left@.last(), depth: again.depth },
                replies,
            ) == resume(base, Progress::Ends(given, replies)),
{
    let level = all.last();
    let tiles = level.left@.reverse();
    assert(tiles[0] == level.left@.last());
    assert(again.left@.reverse() == tiles.drop_first());
    assert forall|replies: Seq<Outcome>| #[trigger]
        continuation(
            all.drop_last().push(again),
            Stage::Asking { bbox: level.left@.last(), depth: again.depth },
            replies,
        ) == resume(base, Progress::Ends(given, replies)) by {
        assert(resume(all, Progress::Ends(Ok(response), replies)) == resume(
            base,
            Progress::Ends(given, replies),
        ));
        lemma_enter_level(all.drop_last(), again, tiles, replies);
    }
}

/// Hands what a tile gave to the level it belongs to, and goes on with the next tile
/// that waits.
fn ascend(levels: &mut Vec<Level>, reply: Result<RawOverpassResponse, String>) -> (stage: Stage)
    requires
        sound(old(levels)@),
    ensures
        sound(final(levels)@),
        match stage {
            Stage::Asking { bbox, depth } => bbox.well_formed() && depth
                <= MAX_OVERPASS_SPLIT_DEPTH,
            Stage::Ended(_) => final(levels)@.len() == 0,
        },
        forall|replies: Seq<Outcome>| #[trigger]
            continuation(final(levels)@, stage, replies) == resume(
                old(levels)@,
                Progress::Ends(outcome_of(reply), replies),
            ),
{
    let ghost given = outcome_of(reply);
    let mut current = reply;
    while levels.len() > 0
        invariant
            sound(levels@),
            given == outcome_of(reply),
            same_course(levels@, outcome_of(current), old(levels)@, given),
        decreases levels@.len(),
    {
        let ghost all = levels@;
        let level = levels.pop().unwrap();
        proof {
            assert(levels@ == all.drop_last());
            assert(sound(levels@)) by {
                assert forall|i: int| 0 <= i < levels@.len() implies {
                    &&& 1 <= (#[trigger] levels@[i]).depth <= MAX_OVERPASS_SPLIT_DEPTH
                    &&& forall|j: int|
                        0 <= j < levels@[i].left@.len() ==> (
                        #[trigger] levels@[i].left@[j]).well_formed()
                } by {
                    assert(levels@[i] == all[i]);
                }
            }
            assert(level == all[all.len() - 1]);
        }
        match current {
            Err(message) => {
                current = Err(message);
                proof {
                    lemma_level_fails(all, message@, old(levels)@, given);
                }
            },
            Ok(response) => {
                let ghost got = response@;
                let ghost was = level;
                let Level { mut left, depth, mut collected } = level;
                collected.push(response);
                proof {
                    assert(views(collected@) == views(was.collected@).push(got));
                }
                match left.pop() {
                    Some(next) => {
                        let again = Level { left, depth, collected };
                        proof {
                            lemma_level_goes_on(all, got, again, old(levels)@, given);
                            assert forall|j: int| 0 <= j < again.left@.len() implies (
                            #[trigger] again.left@[j]).well_formed() by {
                                assert(again.left@[j] == was.left@[j]);
                            }
                            assert(next == was.left@[was.left@.len() - 1]);
                        }
                        levels.push(again);
                        return Stage::Asking { bbox: next, depth };
                    },
                    None => {
                        current = Ok(merge_raw_overpass_responses(collected));
                        proof {
                            lemma_level_ends(all, got, old(levels)@, given);
                        }
                    },
                }
            },
        }
    }
    let stage = Stage::Ended(current);
    proof {
        assert forall|replies: Seq<Outcome>| #[trigger]
            continuation(levels@, stage, replies) == resume(
                old(levels)@,
                Progress::Ends(given, replies),
            ) by {
            assert(resume(levels@, Progress::Ends(outcome_of(current), replies)) == resume(
                old(levels)@,
                Progress::Ends(given, replies),
            ));
        }
    }
    stage
}

/// A fetch of an area. It names the tile that it needs next, and takes the reply for it,
/// until it has ended.
pub struct AdaptiveFetch {
    levels: Vec<Level>,
    stage: Stage,
    area: Ghost<LLBBox>,
    replies: Ghost<Seq<Outcome>>,
}

impl AdaptiveFetch {
    /// The area that is fetched.
    pub closed spec fn area(self) -> LLBBox {
        self.area@
    }

    /// The replies that came so far.
    pub closed spec fn replies(self) -> Seq<Outcome> {
        self.replies@
    }

    /// How far the fetch has got.
    pub open spec fn progress(self) -> Progress {
        fetch(self.area(), 0, self.replies())
    }

    /// What is kept of the replies is what the fetch of the area needs.
    #[verifier::type_invariant]
    spec fn well_formed(self) -> bool {
        &&& sound(self.levels@)
        &&& match self.stage {
            Stage::Asking { bbox, depth } => bbox.well_formed() && depth
                <= MAX_OVERPASS_SPLIT_DEPTH,
            Stage::Ended(_) => self.levels@.len() == 0,
        }
        &&& forall|future: Seq<Outcome>| #[trigger]
            continuation(self.levels@, self.stage, future) == fetch(
                self.area@,
                0,
                self.replies@ + future,
            )
    }

    /// A fetch that has asked for nothing yet.
    pub fn new(area: LLBBox) -> (fetching: AdaptiveFetch)
        requires
            area.well_formed(),
        ensures
            fetching.area() == area,
            fetching.replies() == Seq::<Outcome>::empty(),
    {
        let ghost none: Seq<Outcome> = Seq::empty();
        let mut levels: Vec<Level> = Vec::new();
        let tiles = initial_tiles_for_bbox(area);
        let stage = if tiles.len() > 1 {
            descend(&mut levels, tiles, 1)
        } else {
            Stage::Asking { bbox: area, depth: 0 }
        };
        proof {
            assert forall|future: Seq<Outcome>| #[trigger]
                continuation(levels@, stage, future) == fetch(area, 0, none + future) by {
                assert(none + future == future);
            }
        }
        AdaptiveFetch { levels, stage, area: Ghost(area), replies: Ghost(none) }
    }

    /// The tile whose reply is needed next, if the fetch has not ended.
    pub fn wanted_tile(&self) -> (tile: Option<LLBBox>)
        ensures
            match self.progress() {
                Progress::Asks(bbox) => tile == Some(bbox) && bbox.well_formed(),
                Progress::Ends(_, _) => tile is None,
            },
    {
        proof {
            use_type_invariant(self);
            assert(self.replies@ + Seq::empty() == self.replies@);
            assert(continuation(self.levels@, self.stage, Seq::empty()) == self.progress());
        }
        match self.stage {
            Stage::Asking { bbox, depth: _ } => Some(bbox),
            Stage::Ended(_) => None,
        }
    }

    /// The fetch with the reply for the tile that it needs next. One that has ended takes
    /// no reply.
    pub fn with_reply(self, reply: Result<RawOverpassResponse, String>) -> (fetching: AdaptiveFetch)
        ensures
            fetching.area() == self.area(),
            fetching.replies() == match self.progress() {
                Progress::Asks(_) => self.replies().push(outcome_of(reply)),
                Progress::Ends(_, _) => self.replies(),
            },
    {
        proof {
            use_type_invariant(&self);
        }
        let ghost given = outcome_of(reply);
        let ghost before = self.replies@;
        let ghost after = before.push(given);
        let ghost outer = self.levels@;
        let ghost was = self.stage;
        let ghost whole = self.area@;
        proof {
            assert(before + Seq::empty() == before);
            assert(continuation(outer, was, Seq::empty()) == self.progress());
        }
        let (bbox, depth): (LLBBox, u8) = match &self.stage {
            Stage::Asking { bbox, depth } => (*bbox, *depth),
            Stage::Ended(_) => {
                return self;
            },
        };
        let split = match &reply {
            Ok(response) => match &response.remark {
                Some(remark) => overpass_remark_suggests_split(remark.as_str()),
                None => false,
            },
            Err(message) => overpass_error_suggests_split(message.as_str()),
        };
        proof {
            assert forall|future: Seq<Outcome>| #[trigger]
                resume(outer, ask(bbox, depth as nat, seq![given] + future)) == fetch(
                    whole,
                    0,
                    after + future,
                ) by {
                assert(continuation(outer, was, seq![given] + future) == fetch(
                    whole,
                    0,
                    before + (seq![given] + future),
                ));
                assert(before + (seq![given] + future) == after + future);
            }
            assert forall|future: Seq<Outcome>| (#[trigger] (seq![given] + future)).drop_first()
                == future && (seq![given] + future)[0] == given by {}
        }
        let AdaptiveFetch { mut levels, stage: _, area, replies: _ } = self;
        if split && depth < MAX_OVERPASS_SPLIT_DEPTH {
            let quarters = split_bbox_into_grid(bbox, 2, 2);
            if quarters.len() > 1 {
                let ghost parts = quarters@;
                let stage = descend(&mut levels, quarters, depth + 1);
                proof {
                    assert forall|future: Seq<Outcome>| #[trigger]
                        continuation(levels@, stage, future) == fetch(whole, 0, after + future) by {
                        let come = seq![given] + future;
                        assert(ask(bbox, depth as nat, come) == fetch_tiles(
                            parts,
                            (depth + 1) as nat,
                            future,
                            Seq::empty(),
                        ));
                        assert(resume(outer, ask(bbox, depth as nat, come)) == fetch(
                            whole,
                            0,
                            after + future,
                        ));
                    }
                }
                return AdaptiveFetch { levels, stage, area, replies: Ghost(after) };
            }
        }
        let stage = ascend(&mut levels, reply);
        proof {
            assert forall|future: Seq<Outcome>| #[trigger]
                continuation(levels@, stage, future) == fetch(whole, 0, after + future) by {
                let come = seq![given] + future;
                assert(ask(bbox, depth as nat, come) == Progress::Ends(given, future));
                assert(resume(outer, ask(bbox, depth as nat, come)) == fetch(
                    whole,
                    0,
                    after + future,
                ));
            }
        }
        AdaptiveFetch { levels, stage, area, replies: Ghost(after) }
    }

    /// What the fetch has ended with, if it has.
    pub fn into_result(self) -> (result: Option<Result<RawOverpassResponse, String>>)
        ensures
            match self.progress() {
                Progress::Asks(_) => result is None,
                Progress::Ends(outcome, unused) => {
                    &&& result matches Some(reply)
                    &&& outcome_of(reply) == outcome
                    &&& unused.len() == 0
                },
            },
    {
        proof {
            use_type_invariant(&self);
            assert(self.replies@ + Seq::empty() == self.replies@);
            assert(continuation(self.levels@, self.stage, Seq::empty()) == self.progress());
        }
        match self.stage {
            Stage::Ended(result) => Some(result),
            Stage::Asking { bbox: _, depth: _ } => None,
        }
    }
}

/// A reply that brought data counts as what it holds, and a failure as its message.
pub proof fn law_outcome_of_reply(reply: Result<RawOverpassResponse, String>)
    ensures
        reply matches Ok(response) ==> outcome_of(reply) == Ok::<Response, Seq<char>>(response@),
        reply matches Err(message) ==> outcome_of(reply) == Err::<Response, Seq<char>>(message@),
{
}

} // verus!
