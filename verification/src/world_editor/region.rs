//! Saving a region: which chunks are written, from what, and how far saving has got.

use crate::blocks::{Block, Placement};
use crate::nbt::{Compound, Nbt};
use crate::progress::{
    is_report_due, percentage, percentage_of, report_due, SAVE_REPORTS, SAVE_SHARE, SAVE_START,
};
use crate::text::{
    append_signed_decimal, decimal, law_decimal_reads_back, law_signed_decimals_differ,
    signed_decimal,
};
use crate::world_editor::common::{ChunkToModify, Section};
use crate::world_editor::java::{chunk_tags, create_chunk_tags, lowest_section};
use vstd::prelude::*;

verus! {

/// The number of chunks along an edge of a region.
pub const REGION_CHUNKS: i32 = 32;

/// The height of the grass in a chunk in which nothing was placed.
pub const BASE_GRASS_Y: i32 = -62;

/// The name of the file in which a region is saved.
pub open spec fn region_name(region_x: int, region_z: int) -> Seq<char> {
    "r."@ + signed_decimal(region_x) + "."@ + signed_decimal(region_z) + ".mca"@
}

/// The name of the file in which a region is saved.
pub fn region_file_name(region_x: i32, region_z: i32) -> (name: String)
    ensures
        name@ == region_name(region_x as int, region_z as int),
        name@ == "r."@ + signed_decimal(region_x as int) + "."@ + signed_decimal(region_z as int)
            + ".mca"@,
{
    let mut name = "r.".to_string();
    append_signed_decimal(&mut name, region_x);
    name.append(".");
    append_signed_decimal(&mut name, region_z);
    name.append(".mca");
    name
}

/// The blocks of a chunk in which nothing was placed, by their place in the chunk: a layer
/// of grass.
pub open spec fn base_layer() -> Seq<Placement> {
    Seq::new(
        256,
        |i: int|
            Placement {
                x: (i / 16) as i32,
                y: BASE_GRASS_Y,
                z: (i % 16) as i32,
                block: Block::GrassBlock,
            },
    )
}

/// The blocks of a chunk in which nothing was placed, by their place in the chunk.
pub fn base_chunk_blocks() -> (blocks: Vec<Placement>)
    ensures
        blocks@ == base_layer(),
        blocks@ == Seq::new(
            256,
            |i: int|
                Placement {
                    x: (i / 16) as i32,
                    y: BASE_GRASS_Y,
                    z: (i % 16) as i32,
                    block: Block::GrassBlock,
                },
        ),
{
    let ghost layer = |i: int|
        Placement {
            x: (i / 16) as i32,
            y: BASE_GRASS_Y,
            z: (i % 16) as i32,
            block: Block::GrassBlock,
        };
    let mut blocks: Vec<Placement> = Vec::new();
    let mut x: i32 = 0;
    while x < 16
        invariant
            0 <= x <= 16,
            layer == (|i: int|
                Placement {
                    x: (i / 16) as i32,
                    y: BASE_GRASS_Y,
                    z: (i % 16) as i32,
                    block: Block::GrassBlock,
                }),
            blocks@ == Seq::new((x * 16) as nat, layer),
        decreases 16 - x,
    {
        let mut z: i32 = 0;
        while z < 16
            invariant
                0 <= x < 16,
                0 <= z <= 16,
                layer == (|i: int|
                    Placement {
                        x: (i / 16) as i32,
                        y: BASE_GRASS_Y,
                        z: (i % 16) as i32,
                        block: Block::GrassBlock,
                    }),
                blocks@ == Seq::new((x * 16 + z) as nat, layer),
            decreases 16 - z,
        {
            blocks.push(Placement { x, y: BASE_GRASS_Y, z, block: Block::GrassBlock });
            proof {
                assert((x * 16 + z) / 16 == x && (x * 16 + z) % 16 == z);
                assert(blocks@ == Seq::new((x * 16 + z + 1) as nat, layer));
            }
            z = z + 1;
        }
        x = x + 1;
    }
    blocks
}

/// The coordinate of a chunk in the world, from that of its region and that in the region.
pub fn absolute_chunk(region: i32, chunk: i32) -> (at: i32)
    requires
        i32::MIN <= region * REGION_CHUNKS <= i32::MAX,
        i32::MIN <= chunk + region * REGION_CHUNKS <= i32::MAX,
    ensures
        at == chunk + region * REGION_CHUNKS,
{
    chunk + region * REGION_CHUNKS
}

/// What is saved of a chunk in which nothing was placed. It has the sections that the base
/// blocks make.
pub fn create_base_chunk(
    abs_chunk_x: i32,
    abs_chunk_z: i32,
    base_sections: &Vec<Section>,
    data_version: i32,
) -> (tags: Compound)
    ensures
        tags@ == chunk_tags(
            base_sections@,
            abs_chunk_x,
            abs_chunk_z,
            Map::empty(),
            data_version,
        ),
{
    let none = Compound::new();
    create_chunk_tags(base_sections, abs_chunk_x, abs_chunk_z, &none, data_version)
}

/// A chunk of a region in which something was placed.
#[derive(Debug)]
pub struct RegionChunk {
    pub chunk_x: i32,
    pub chunk_z: i32,
    pub content: ChunkToModify,
}

impl RegionChunk {
    /// There is something to save.
    pub open spec fn has_content(self) -> bool {
        self.content.sections@.len() > 0 || self.content.other@ != Map::<Seq<char>, Nbt>::empty()
    }
}

/// No two chunks of a region have the same place in it.
pub open spec fn places_differ(chunks: Seq<RegionChunk>) -> bool {
    forall|i: int, j: int|
        0 <= i < j < chunks.len() ==> {
            ||| (#[trigger] chunks[i]).chunk_x != (#[trigger] chunks[j]).chunk_x
            ||| chunks[i].chunk_z != chunks[j].chunk_z
        }
}

/// A chunk of the region that has content is at the given place in it.
pub open spec fn has_chunk(chunks: Seq<RegionChunk>, chunk_x: int, chunk_z: int) -> bool {
    exists|i: int|
        0 <= i < chunks.len() && (#[trigger] chunks[i]).chunk_x == chunk_x && chunks[i].chunk_z
            == chunk_z && chunks[i].has_content()
}

/// Where what is written to a place in a region comes from.
#[derive(Clone, Copy, Debug, PartialEq, Eq, Structural)]
pub enum ChunkSource {
    /// From the chunk with this number.
    Placed(usize),
    /// From the base layer.
    Base,
}

/// A chunk that is written to a place in a region.
#[derive(Clone, Copy, Debug, PartialEq, Eq, Structural)]
pub struct ChunkWrite {
    pub chunk_x: i32,
    pub chunk_z: i32,
    pub source: ChunkSource,
}

/// The writes for those of the first `count` chunks that have content.
pub open spec fn placed_writes(chunks: Seq<RegionChunk>, count: nat) -> Seq<ChunkWrite>
    decreases count,
{
    if count == 0 {
        Seq::empty()
    } else {
        let last = (count - 1) as nat;
        let before = placed_writes(chunks, last);
        let chunk = chunks[last as int];
        if chunk.has_content() {
            before.push(
                ChunkWrite {
                    chunk_x: chunk.chunk_x,
                    chunk_z: chunk.chunk_z,
                    source: ChunkSource::Placed(last as usize),
                },
            )
        } else {
            before
        }
    }
}

/// The writes for those of the first `count` places of a region, column by column, at
/// which there is no chunk with content.
pub open spec fn base_writes(chunks: Seq<RegionChunk>, count: nat) -> Seq<ChunkWrite>
    decreases count,
{
    if count == 0 {
        Seq::empty()
    } else {
        let last = (count - 1) as nat;
        let before = base_writes(chunks, last);
        let chunk_x = last as int / REGION_CHUNKS as int;
        let chunk_z = last as int % REGION_CHUNKS as int;
        if has_chunk(chunks, chunk_x, chunk_z) {
            before
        } else {
            before.push(
                ChunkWrite {
                    chunk_x: chunk_x as i32,
                    chunk_z: chunk_z as i32,
                    source: ChunkSource::Base,
                },
            )
        }
    }
}

/// Everything that is written for a region: first the chunks with content, then the base
/// layer wherever there is no chunk with content.
pub open spec fn region_writes(chunks: Seq<RegionChunk>) -> Seq<ChunkWrite> {
    placed_writes(chunks, chunks.len()) + base_writes(chunks, 1024)
}

/// Whether a chunk has something to save.
fn has_something(chunk: &RegionChunk) -> (something: bool)
    ensures
        something == chunk.has_content(),
{
    chunk.content.sections.len() > 0 || !chunk.content.other.is_empty()
}

/// Whether a chunk of the region that has content is at the given place in it.
fn find_chunk(chunks: &Vec<RegionChunk>, chunk_x: i32, chunk_z: i32) -> (found: bool)
    ensures
        found == has_chunk(chunks@, chunk_x as int, chunk_z as int),
{
    let mut i: usize = 0;
    while i < chunks.len()
        invariant
            i <= chunks@.len(),
            forall|j: int|
                0 <= j < i ==> !((#[trigger] chunks@[j]).chunk_x == chunk_x && chunks@[j].chunk_z
                    == chunk_z && chunks@[j].has_content()),
        decreases chunks@.len() - i,
    {
        if chunks[i].chunk_x == chunk_x && chunks[i].chunk_z == chunk_z && has_something(
            &chunks[i],
        ) {
            return true;
        }
        i = i + 1;
    }
    false
}

/// Everything that is written for a region, in order.
pub fn plan_region(chunks: &Vec<RegionChunk>) -> (writes: Vec<ChunkWrite>)
    ensures
        writes@ == region_writes(chunks@),
        forall|w: int|
            0 <= w < writes@.len() ==> match (#[trigger] writes@[w]).source {
                ChunkSource::Placed(i) => i < chunks@.len() && writes@[w].chunk_x
                    == chunks@[i as int].chunk_x && writes@[w].chunk_z == chunks@[i as int].chunk_z,
                ChunkSource::Base => 0 <= writes@[w].chunk_x < REGION_CHUNKS && 0
                    <= writes@[w].chunk_z < REGION_CHUNKS,
            },
{
    let mut writes: Vec<ChunkWrite> = Vec::new();
    let mut i: usize = 0;
    while i < chunks.len()
        invariant
            i <= chunks@.len(),
            writes@ == placed_writes(chunks@, i as nat),
        decreases chunks@.len() - i,
    {
        let chunk = &chunks[i];
        if has_something(chunk) {
            writes.push(
                ChunkWrite {
                    chunk_x: chunk.chunk_x,
                    chunk_z: chunk.chunk_z,
                    source: ChunkSource::Placed(i),
                },
            );
        }
        i = i + 1;
    }
    let ghost placed = writes@;
    let mut chunk_x: i32 = 0;
    while chunk_x < REGION_CHUNKS
        invariant
            0 <= chunk_x <= REGION_CHUNKS,
            writes@ == placed + base_writes(chunks@, (chunk_x * 32) as nat),
        decreases REGION_CHUNKS - chunk_x,
    {
        let mut chunk_z: i32 = 0;
        while chunk_z < REGION_CHUNKS
            invariant
                0 <= chunk_x < REGION_CHUNKS,
                0 <= chunk_z <= REGION_CHUNKS,
                writes@ == placed + base_writes(chunks@, (chunk_x * 32 + chunk_z) as nat),
            decreases REGION_CHUNKS - chunk_z,
        {
            let ghost k = chunk_x * 32 + chunk_z;
            proof {
                assert(k / 32 == chunk_x && k % 32 == chunk_z);
            }
            if !find_chunk(chunks, chunk_x, chunk_z) {
                writes.push(ChunkWrite { chunk_x, chunk_z, source: ChunkSource::Base });
            }
            proof {
                assert(writes@ == placed + base_writes(chunks@, (k + 1) as nat));
            }
            chunk_z = chunk_z + 1;
        }
        chunk_x = chunk_x + 1;
    }
    proof {
        lemma_placed_writes(chunks@, chunks@.len());
        lemma_base_writes(chunks@, 1024);
    }
    writes
}

/// What is saved at a place in a region.
pub fn create_region_chunk(
    region_x: i32,
    region_z: i32,
    chunks: &Vec<RegionChunk>,
    write: ChunkWrite,
    base_sections: &Vec<Section>,
    data_version: i32,
) -> (tags: Compound)
    requires
        i32::MIN <= region_x * REGION_CHUNKS <= i32::MAX,
        i32::MIN <= region_z * REGION_CHUNKS <= i32::MAX,
        i32::MIN <= write.chunk_x + region_x * REGION_CHUNKS <= i32::MAX,
        i32::MIN <= write.chunk_z + region_z * REGION_CHUNKS <= i32::MAX,
        write.source matches ChunkSource::Placed(i) ==> i < chunks@.len(),
    ensures
        ({
            let x_pos = (write.chunk_x + region_x * REGION_CHUNKS) as i32;
            let z_pos = (write.chunk_z + region_z * REGION_CHUNKS) as i32;
            tags@ == match write.source {
                ChunkSource::Placed(i) => chunk_tags(
                    chunks@[i as int].content.sections@,
                    x_pos,
                    z_pos,
                    chunks@[i as int].content.other@,
                    data_version,
                ),
                ChunkSource::Base => chunk_tags(
                    base_sections@,
                    x_pos,
                    z_pos,
                    Map::empty(),
                    data_version,
                ),
            }
        }),
{
    let x_pos = absolute_chunk(region_x, write.chunk_x);
    let z_pos = absolute_chunk(region_z, write.chunk_z);
    match write.source {
        ChunkSource::Placed(i) => create_chunk_tags(
            &chunks[i].content.sections,
            x_pos,
            z_pos,
            &chunks[i].content.other,
            data_version,
        ),
        ChunkSource::Base => create_base_chunk(x_pos, z_pos, base_sections, data_version),
    }
}

/// Chunks in which nothing was placed have their place in them, and agree in everything else.
pub proof fn law_base_chunks_agree(
    base_sections: Seq<Section>,
    data_version: i32,
    x: i32,
    z: i32,
    other_x: i32,
    other_z: i32,
)
    ensures
        ({
            let one = chunk_tags(base_sections, x, z, Map::empty(), data_version);
            let other = chunk_tags(base_sections, other_x, other_z, Map::empty(), data_version);
            &&& one.contains_key("xPos"@) && one["xPos"@] == Nbt::Int(x)
            &&& one.contains_key("zPos"@) && one["zPos"@] == Nbt::Int(z)
            &&& one.contains_key("yPos"@) && one["yPos"@] == Nbt::Int(
                lowest_section(base_sections) as i32,
            )
            &&& one.dom() == other.dom()
            &&& forall|name: Seq<char>|
                name != "xPos"@ && name != "zPos"@ && #[trigger] one.contains_key(name)
                    ==> one[name] == other[name]
        }),
{
    lemma_place_names();
    let one = chunk_tags(base_sections, x, z, Map::empty(), data_version);
    let other = chunk_tags(base_sections, other_x, other_z, Map::empty(), data_version);
    assert(one.dom() =~= other.dom());
}

/// The names of the coordinates are those of nothing else at the root of a chunk.
proof fn lemma_place_names()
    ensures
        "xPos"@ != "zPos"@,
        "xPos"@ != "yPos"@,
        "yPos"@ != "zPos"@,
        forall|name: Seq<char>|
            (name == "xPos"@ || name == "yPos"@ || name == "zPos"@) ==> #[trigger] name.len() == 4,
        "LastUpdate"@.len() == 10,
        "InhabitedTime"@.len() == 13,
        "Heightmaps"@.len() == 10,
        "sections"@.len() == 8,
        "block_entities"@.len() == 14,
        "structures"@.len() == 10,
{
    reveal_strlit("xPos");
    reveal_strlit("yPos");
    reveal_strlit("zPos");
    reveal_strlit("LastUpdate");
    reveal_strlit("InhabitedTime");
    reveal_strlit("Heightmaps");
    reveal_strlit("sections");
    reveal_strlit("block_entities");
    reveal_strlit("structures");
    assert("xPos"@[0] == 'x');
    assert("yPos"@[0] == 'y');
    assert("zPos"@[0] == 'z');
}

/// How far saving the regions of a world has got.
pub struct SaveProgress {
    saved: u64,
    total: u64,
    first_error: Option<String>,
}

impl SaveProgress {
    #[verifier::type_invariant]
    spec fn consistent(self) -> bool {
        self.saved <= self.total
    }

    /// The number of regions that are saved.
    pub closed spec fn saved(self) -> nat {
        self.saved as nat
    }

    /// The number of regions.
    pub closed spec fn total(self) -> nat {
        self.total as nat
    }

    /// The failure that was noted first.
    pub closed spec fn first_error(self) -> Option<Seq<char>> {
        match self.first_error {
            Some(error) => Some(error@),
            None => None,
        }
    }

    /// The progress when no region is saved.
    pub fn new(total: u64) -> (progress: SaveProgress)
        ensures
            progress.saved() == 0,
            progress.total() == total,
            progress.first_error() is None,
    {
        SaveProgress { saved: 0, total, first_error: None }
    }

    /// Whether regions that are not begun are left alone, because one has failed.
    pub fn should_stop(&self) -> (stop: bool)
        ensures
            stop == (self.first_error() is Some),
    {
        self.first_error.is_some()
    }

    /// Counts a region that is saved. Gives the new percentage where it is to be shown.
    pub fn note_saved(&mut self) -> (report: Option<u64>)
        requires
            old(self).saved() < old(self).total(),
        ensures
            final(self).saved() == old(self).saved() + 1,
            final(self).total() == old(self).total(),
            final(self).first_error() == old(self).first_error(),
            report == if report_due(
                final(self).saved(),
                final(self).total(),
                SAVE_REPORTS as nat,
            ) {
                Some(
                    percentage(SAVE_START, SAVE_SHARE, final(self).saved(), final(self).total()),
                )
            } else {
                None
            },
    {
        proof {
            use_type_invariant(&*self);
        }
        let saved: u64 = self.saved + 1;
        self.saved = saved;
        if is_report_due(saved, self.total, SAVE_REPORTS) {
            Some(percentage_of(SAVE_START, SAVE_SHARE, saved, self.total))
        } else {
            None
        }
    }

    /// Notes that a region could not be saved. Of several failures the first is kept.
    pub fn note_failure(&mut self, error: String)
        ensures
            final(self).saved() == old(self).saved(),
            final(self).total() == old(self).total(),
            final(self).first_error() == match old(self).first_error() {
                Some(first) => Some(first),
                None => Some(error@),
            },
    {
        proof {
            use_type_invariant(&*self);
        }
        if self.first_error.is_none() {
            self.first_error = Some(error);
        }
    }

    /// How saving has ended: with the first failure, or well if there was none.
    pub fn into_result(self) -> (result: Result<(), String>)
        ensures
            match self.first_error() {
                Some(first) => result matches Err(error) && error@ == first,
                None => result is Ok,
            },
    {
        match self.first_error {
            Some(error) => Err(error),
            None => Ok(()),
        }
    }
}

/// Each write that comes from a chunk has its place, and the chunk has content.
proof fn lemma_placed_writes(chunks: Seq<RegionChunk>, count: nat)
    requires
        count <= chunks.len() <= usize::MAX,
    ensures
        forall|w: int|
            0 <= w < placed_writes(chunks, count).len() ==> {
                let write = #[trigger] placed_writes(chunks, count)[w];
                write.source matches ChunkSource::Placed(i) && i < count && chunks[i as int].chunk_x
                    == write.chunk_x && chunks[i as int].chunk_z == write.chunk_z
                    && chunks[i as int].has_content()
            },
        forall|v: int, w: int|
            0 <= v < w < placed_writes(chunks, count).len() ==> (
            #[trigger] placed_writes(chunks, count)[v]).source->Placed_0 < (
            #[trigger] placed_writes(chunks, count)[w]).source->Placed_0,
        forall|i: int|
            0 <= i < count && (#[trigger] chunks[i]).has_content() ==> placed_writes(
                chunks,
                count,
            ).contains(
                ChunkWrite {
                    chunk_x: chunks[i].chunk_x,
                    chunk_z: chunks[i].chunk_z,
                    source: ChunkSource::Placed(i as usize),
                },
            ),
    decreases count,
{
    if count > 0 {
        let last = (count - 1) as nat;
        lemma_placed_writes(chunks, last);
        let before = placed_writes(chunks, last);
        let all = placed_writes(chunks, count);
        let chunk = chunks[last as int];
        let next = ChunkWrite {
            chunk_x: chunk.chunk_x,
            chunk_z: chunk.chunk_z,
            source: ChunkSource::Placed(last as usize),
        };
        if chunk.has_content() {
            assert(all == before.push(next));
            assert(all[before.len() as int] == next);
        }
        assert forall|i: int|
            0 <= i < count && (#[trigger] chunks[i]).has_content() implies all.contains(
            ChunkWrite {
                chunk_x: chunks[i].chunk_x,
                chunk_z: chunks[i].chunk_z,
                source: ChunkSource::Placed(i as usize),
            },
        ) by {
            if i < last {
                let write = ChunkWrite {
                    chunk_x: chunks[i].chunk_x,
                    chunk_z: chunks[i].chunk_z,
                    source: ChunkSource::Placed(i as usize),
                };
                assert(before.contains(write));
                let k = choose|k: int| 0 <= k < before.len() && before[k] == write;
                assert(all[k] == write);
            }
        }
    }
}

/// The number of a place of a region, column by column.
pub open spec fn slot(chunk_x: int, chunk_z: int) -> int {
    chunk_x * REGION_CHUNKS + chunk_z
}

/// The base layer is written in the order of the places, where there is no chunk with
/// content.
proof fn lemma_base_writes(chunks: Seq<RegionChunk>, count: nat)
    requires
        count <= 1024,
    ensures
        forall|w: int|
            0 <= w < base_writes(chunks, count).len() ==> {
                let write = #[trigger] base_writes(chunks, count)[w];
                &&& write.source == ChunkSource::Base
                &&& 0 <= write.chunk_x < REGION_CHUNKS
                &&& 0 <= write.chunk_z < REGION_CHUNKS
                &&& slot(write.chunk_x as int, write.chunk_z as int) < count
                &&& !has_chunk(chunks, write.chunk_x as int, write.chunk_z as int)
            },
        forall|v: int, w: int|
            0 <= v < w < base_writes(chunks, count).len() ==> slot(
                (#[trigger] base_writes(chunks, count)[v]).chunk_x as int,
                base_writes(chunks, count)[v].chunk_z as int,
            ) < slot(
                (#[trigger] base_writes(chunks, count)[w]).chunk_x as int,
                base_writes(chunks, count)[w].chunk_z as int,
            ),
        forall|x: int, z: int|
            0 <= x < REGION_CHUNKS && 0 <= z < REGION_CHUNKS && slot(x, z) < count
                && !#[trigger] has_chunk(chunks, x, z) ==> base_writes(chunks, count).contains(
                ChunkWrite { chunk_x: x as i32, chunk_z: z as i32, source: ChunkSource::Base },
            ),
    decreases count,
{
    if count > 0 {
        let last = (count - 1) as nat;
        lemma_base_writes(chunks, last);
        let before = base_writes(chunks, last);
        let all = base_writes(chunks, count);
        let chunk_x = last as int / REGION_CHUNKS as int;
        let chunk_z = last as int % REGION_CHUNKS as int;
        assert(slot(chunk_x, chunk_z) == last);
        let next = ChunkWrite {
            chunk_x: chunk_x as i32,
            chunk_z: chunk_z as i32,
            source: ChunkSource::Base,
        };
        if !has_chunk(chunks, chunk_x, chunk_z) {
            assert(all == before.push(next));
            assert(all[before.len() as int] == next);
        }
        assert forall|x: int, z: int|
            0 <= x < REGION_CHUNKS && 0 <= z < REGION_CHUNKS && slot(x, z) < count
                && !#[trigger] has_chunk(chunks, x, z) implies all.contains(
            ChunkWrite { chunk_x: x as i32, chunk_z: z as i32, source: ChunkSource::Base },
        ) by {
            let write = ChunkWrite {
                chunk_x: x as i32,
                chunk_z: z as i32,
                source: ChunkSource::Base,
            };
            if slot(x, z) < last {
                assert(before.contains(write));
                let k = choose|k: int| 0 <= k < before.len() && before[k] == write;
                assert(all[k] == write);
            } else {
                assert(x == chunk_x && z == chunk_z);
            }
        }
    }
}

/// No place of a region is written twice.
pub proof fn law_no_place_written_twice(chunks: Seq<RegionChunk>, v: int, w: int)
    requires
        places_differ(chunks),
        chunks.len() <= usize::MAX,
        0 <= v < w < region_writes(chunks).len(),
    ensures
        ({
            let first = region_writes(chunks)[v];
            let second = region_writes(chunks)[w];
            first.chunk_x != second.chunk_x || first.chunk_z != second.chunk_z
        }),
{
    let placed = placed_writes(chunks, chunks.len());
    let base = base_writes(chunks, 1024);
    lemma_placed_writes(chunks, chunks.len());
    lemma_base_writes(chunks, 1024);
    let first = region_writes(chunks)[v];
    let second = region_writes(chunks)[w];
    if w < placed.len() {
        assert(first == placed[v] && second == placed[w]);
        let i = first.source->Placed_0;
        let j = second.source->Placed_0;
        assert(chunks[i as int].chunk_x != chunks[j as int].chunk_x || chunks[i as int].chunk_z
            != chunks[j as int].chunk_z);
    } else if v < placed.len() {
        assert(first == placed[v] && second == base[w - placed.len()]);
        let i = first.source->Placed_0;
        assert(chunks[i as int].chunk_x == first.chunk_x);
    } else {
        assert(first == base[v - placed.len()] && second == base[w - placed.len()]);
    }
}

/// Every place of a region is written: with a chunk that has content if one is there, else
/// with the base layer.
pub proof fn law_every_place_written(chunks: Seq<RegionChunk>, chunk_x: int, chunk_z: int)
    requires
        chunks.len() <= usize::MAX,
        0 <= chunk_x < REGION_CHUNKS,
        0 <= chunk_z < REGION_CHUNKS,
    ensures
        exists|w: int|
            0 <= w < region_writes(chunks).len() && (#[trigger] region_writes(chunks)[w]).chunk_x
                == chunk_x && region_writes(chunks)[w].chunk_z == chunk_z && (region_writes(
                chunks,
            )[w].source == ChunkSource::Base) == !has_chunk(chunks, chunk_x, chunk_z),
{
    let placed = placed_writes(chunks, chunks.len());
    let base = base_writes(chunks, 1024);
    let all = region_writes(chunks);
    lemma_placed_writes(chunks, chunks.len());
    lemma_base_writes(chunks, 1024);
    if has_chunk(chunks, chunk_x, chunk_z) {
        let i = choose|i: int|
            0 <= i < chunks.len() && (#[trigger] chunks[i]).chunk_x == chunk_x && chunks[i].chunk_z
                == chunk_z && chunks[i].has_content();
        let write = ChunkWrite {
            chunk_x: chunks[i].chunk_x,
            chunk_z: chunks[i].chunk_z,
            source: ChunkSource::Placed(i as usize),
        };
        assert(placed.contains(write));
        let k = choose|k: int| 0 <= k < placed.len() && placed[k] == write;
        assert(all[k] == write);
    } else {
        let write = ChunkWrite {
            chunk_x: chunk_x as i32,
            chunk_z: chunk_z as i32,
            source: ChunkSource::Base,
        };
        assert(base.contains(write));
        let k = choose|k: int| 0 <= k < base.len() && base[k] == write;
        assert(all[placed.len() + k] == write);
    }
}

/// What is written of a chunk with content is written at its place, and the base layer where
/// no chunk has content.
pub proof fn law_written_where_it_belongs(chunks: Seq<RegionChunk>, w: int)
    requires
        chunks.len() <= usize::MAX,
        0 <= w < region_writes(chunks).len(),
    ensures
        ({
            let write = region_writes(chunks)[w];
            match write.source {
                ChunkSource::Placed(i) => {
                    &&& i < chunks.len()
                    &&& chunks[i as int].chunk_x == write.chunk_x
                    &&& chunks[i as int].chunk_z == write.chunk_z
                    &&& chunks[i as int].content.sections@.len() > 0 || chunks[
                    i as int].content.other@.dom() != Set::<Seq<char>>::empty()
                },
                ChunkSource::Base => {
                    &&& 0 <= write.chunk_x < 32
                    &&& 0 <= write.chunk_z < 32
                    &&& forall|i: int|
                        0 <= i < chunks.len() && (#[trigger] chunks[i]).chunk_x == write.chunk_x
                            && chunks[i].chunk_z == write.chunk_z
                            ==> chunks[i].content.sections@.len() == 0
                            && chunks[i].content.other@.dom() == Set::<Seq<char>>::empty()
                },
            }
        }),
{
    let placed = placed_writes(chunks, chunks.len());
    let base = base_writes(chunks, 1024);
    lemma_placed_writes(chunks, chunks.len());
    lemma_base_writes(chunks, 1024);
    let write = region_writes(chunks)[w];
    if w < placed.len() {
        assert(write == placed[w]);
        let i = write.source->Placed_0 as int;
        if chunks[i].content.other@.dom() == Set::<Seq<char>>::empty() {
            assert(chunks[i].content.other@ =~= Map::<Seq<char>, Nbt>::empty());
        }
    } else {
        assert(write == base[w - placed.len()]);
        assert forall|i: int|
            0 <= i < chunks.len() && (#[trigger] chunks[i]).chunk_x == write.chunk_x
                && chunks[i].chunk_z == write.chunk_z implies chunks[i].content.sections@.len() == 0
            && chunks[i].content.other@.dom() == Set::<Seq<char>>::empty() by {
            assert(!chunks[i].has_content());
        }
    }
}

/// The base layer is grass at every place of a chunk at the height -62, once each, and
/// nothing else.
pub proof fn law_base_layer(i: int, x: int, z: int)
    ensures
        base_layer().len() == 256,
        0 <= i < 256 ==> {
            let placed = base_layer()[i];
            &&& placed.block == Block::GrassBlock
            &&& placed.y == -62
            &&& 0 <= placed.x < 16
            &&& 0 <= placed.z < 16
            &&& i == placed.x * 16 + placed.z
        },
        0 <= x < 16 && 0 <= z < 16 ==> {
            let placed = base_layer()[x * 16 + z];
            placed.x == x && placed.z == z
        },
{
}

/// The decimal notation of an integer has no point in it.
proof fn lemma_no_point(n: int)
    ensures
        forall|i: int| 0 <= i < signed_decimal(n).len() ==> #[trigger] signed_decimal(n)[i] != '.',
        signed_decimal(n).len() > 0,
{
    if n < 0 {
        law_decimal_reads_back((-n) as nat);
        let digits = decimal((-n) as nat);
        let all = signed_decimal(n);
        assert forall|i: int| 0 <= i < all.len() implies #[trigger] all[i] != '.' by {
            if i > 0 {
                assert(all[i] == digits[i - 1]);
            }
        }
    } else {
        law_decimal_reads_back(n as nat);
    }
}

/// A region's file is named by "r.", its two coordinates with a point between, and ".mca";
/// so different regions are saved in different files.
pub proof fn law_region_names_differ(x: int, z: int, other_x: int, other_z: int)
    requires
        x != other_x || z != other_z,
    ensures
        region_name(x, z) != region_name(other_x, other_z),
        region_name(x, z).len() == 7 + signed_decimal(x).len() + signed_decimal(z).len(),
        region_name(x, z).take(2) == "r."@,
        region_name(x, z).subrange(2, 2 + signed_decimal(x).len() as int) == signed_decimal(x),
        region_name(x, z).skip(region_name(x, z).len() - 4) == ".mca"@,
        region_name(x, z).subrange(
            3 + signed_decimal(x).len() as int,
            3 + signed_decimal(x).len() as int + signed_decimal(z).len() as int,
        ) == signed_decimal(z),
{
    reveal_strlit("r.");
    reveal_strlit(".");
    reveal_strlit(".mca");
    lemma_no_point(x);
    lemma_no_point(z);
    lemma_no_point(other_x);
    lemma_no_point(other_z);
    let a = signed_decimal(x);
    let b = signed_decimal(z);
    let c = signed_decimal(other_x);
    let d = signed_decimal(other_z);
    let one = region_name(x, z);
    let other = region_name(other_x, other_z);
    assert(one.take(2) =~= "r."@);
    assert(one.subrange(2, 2 + a.len() as int) =~= a);
    assert(one.subrange(3 + a.len() as int, 3 + a.len() as int + b.len() as int) =~= b);
    assert(one.skip(one.len() - 4) =~= ".mca"@);
    assert(other.subrange(2, 2 + c.len() as int) =~= c);
    assert(other.subrange(3 + c.len() as int, 3 + c.len() as int + d.len() as int) =~= d);
    if one == other {
        assert(one[2 + a.len() as int] == '.');
        assert(other[2 + c.len() as int] == '.');
        if a.len() < c.len() {
            assert(other[2 + a.len() as int] == c[a.len() as int]);
        }
        if c.len() < a.len() {
            assert(one[2 + c.len() as int] == a[c.len() as int]);
        }
        assert(a == c);
        assert(b.len() == d.len());
        assert(b == d);
        if x != other_x {
            law_signed_decimals_differ(x, other_x);
        } else {
            law_signed_decimals_differ(z, other_z);
        }
    }
}

} // verus!
