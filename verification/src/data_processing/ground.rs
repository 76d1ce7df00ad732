//! Laying the ground, chunk by chunk and column by column.

use crate::blocks::{Block, Placement};
use crate::coordinate_system::XZBBox;
use crate::progress::{
    is_report_due, percentage, percentage_of, report_due, GROUND_REPORTS, GROUND_SHARE,
    GROUND_START,
};
use std::collections::HashMap;
use vstd::arithmetic::div_mod::*;
use vstd::arithmetic::mul::*;
use vstd::prelude::*;

verus! {

broadcast use vstd::std_specs::hash::group_hash_axioms;

/// The lowest layer of a world.
pub const MIN_Y: i32 = -64;

/// The number of the chunk that a column belongs to, along one axis.
pub fn chunk_of(block: i32) -> (chunk: i32)
    ensures
        chunk == block as int / 16,
{
    let chunk: i32 = block >> 4;
    proof {
        assert(chunk * 16 <= block && block < chunk * 16 + 16) by (bit_vector)
            requires
                chunk == block >> 4,
        ;
        lemma_fundamental_div_mod_converse(block as int, 16, chunk as int, block - chunk * 16);
    }
    chunk
}

/// The number of chunks along the x axis that a rectangle touches.
pub open spec fn chunks_along_x(bbox: XZBBox) -> int {
    bbox.max_x as int / 16 - bbox.min_x as int / 16 + 1
}

/// The number of chunks along the z axis that a rectangle touches.
pub open spec fn chunks_along_z(bbox: XZBBox) -> int {
    bbox.max_z as int / 16 - bbox.min_z as int / 16 + 1
}

/// The chunk with the given number of those that a rectangle touches, in columns from the
/// least x on.
pub open spec fn chunk_at(bbox: XZBBox, i: int) -> (int, int) {
    (
        bbox.min_x as int / 16 + i / chunks_along_z(bbox),
        bbox.min_z as int / 16 + i % chunks_along_z(bbox),
    )
}

/// The number of chunks that a rectangle touches.
pub fn total_chunks(bbox: &XZBBox) -> (total: u64)
    requires
        bbox.well_formed(),
    ensures
        total == chunks_along_x(*bbox) * chunks_along_z(*bbox),
        total > 0,
{
    let along_x: u64 = (chunk_of(bbox.max_x) - chunk_of(bbox.min_x) + 1) as u64;
    let along_z: u64 = (chunk_of(bbox.max_z) - chunk_of(bbox.min_z) + 1) as u64;
    proof {
        assert(0 < along_x <= 0x1000_0000 && 0 < along_z <= 0x1000_0000);
        assert(0 < along_x * along_z <= 0x1000_0000 * 0x1000_0000) by (nonlinear_arith)
            requires
                0 < along_x <= 0x1000_0000,
                0 < along_z <= 0x1000_0000,
        ;
    }
    along_x * along_z
}

/// The chunks that a rectangle touches.
pub fn chunk_coords(bbox: &XZBBox) -> (chunks: Vec<(i32, i32)>)
    requires
        bbox.well_formed(),
    ensures
        chunks@.len() == chunks_along_x(*bbox) * chunks_along_z(*bbox),
        forall|i: int|
            0 <= i < chunks@.len() ==> #[trigger] chunks@[i].0 == chunk_at(*bbox, i).0
                && chunks@[i].1 == chunk_at(*bbox, i).1,
{
    let min_x = chunk_of(bbox.min_x);
    let max_x = chunk_of(bbox.max_x);
    let min_z = chunk_of(bbox.min_z);
    let max_z = chunk_of(bbox.max_z);
    let ghost along_z = chunks_along_z(*bbox);
    let mut chunks: Vec<(i32, i32)> = Vec::new();
    let mut x: i32 = min_x;
    while x <= max_x
        invariant
            bbox.well_formed(),
            min_x == bbox.min_x as int / 16,
            max_x == bbox.max_x as int / 16,
            min_z == bbox.min_z as int / 16,
            max_z == bbox.max_z as int / 16,
            along_z == chunks_along_z(*bbox),
            min_x <= x <= max_x + 1,
            chunks@.len() == (x - min_x) * along_z,
            forall|i: int|
                0 <= i < chunks@.len() ==> #[trigger] chunks@[i].0 == chunk_at(*bbox, i).0
                    && chunks@[i].1 == chunk_at(*bbox, i).1,
        decreases max_x + 1 - x,
    {
        let mut z: i32 = min_z;
        while z <= max_z
            invariant
                bbox.well_formed(),
                min_x == bbox.min_x as int / 16,
                min_z == bbox.min_z as int / 16,
                max_z == bbox.max_z as int / 16,
                along_z == chunks_along_z(*bbox),
                min_x <= x <= bbox.max_x as int / 16,
                min_z <= z <= max_z + 1,
                chunks@.len() == (x - min_x) * along_z + (z - min_z),
                forall|i: int|
                    0 <= i < chunks@.len() ==> #[trigger] chunks@[i].0 == chunk_at(*bbox, i).0
                        && chunks@[i].1 == chunk_at(*bbox, i).1,
            decreases max_z + 1 - z,
        {
            proof {
                lemma_fundamental_div_mod_converse(
                    chunks@.len() as int,
                    along_z,
                    x - min_x,
                    z - min_z,
                );
            }
            chunks.push((x, z));
            z = z + 1;
        }
        proof {
            lemma_mul_is_distributive_add_other_way(along_z, x - min_x, 1);
        }
        x = x + 1;
    }
    chunks
}

/// The columns of a chunk that lie in a rectangle.
pub open spec fn chunk_range(bbox: XZBBox, chunk_x: int, chunk_z: int) -> XZBBox {
    XZBBox {
        min_x: if chunk_x * 16 < bbox.min_x {
            bbox.min_x
        } else {
            (chunk_x * 16) as i32
        },
        max_x: if chunk_x * 16 + 15 > bbox.max_x {
            bbox.max_x
        } else {
            (chunk_x * 16 + 15) as i32
        },
        min_z: if chunk_z * 16 < bbox.min_z {
            bbox.min_z
        } else {
            (chunk_z * 16) as i32
        },
        max_z: if chunk_z * 16 + 15 > bbox.max_z {
            bbox.max_z
        } else {
            (chunk_z * 16 + 15) as i32
        },
    }
}

/// A rectangle touches the chunk.
pub open spec fn touches(bbox: XZBBox, chunk_x: int, chunk_z: int) -> bool {
    &&& bbox.min_x as int / 16 <= chunk_x <= bbox.max_x as int / 16
    &&& bbox.min_z as int / 16 <= chunk_z <= bbox.max_z as int / 16
}

/// The columns of a chunk that lie in a rectangle which touches it.
pub fn columns_of_chunk(bbox: &XZBBox, chunk_x: i32, chunk_z: i32) -> (range: XZBBox)
    requires
        bbox.well_formed(),
        touches(*bbox, chunk_x as int, chunk_z as int),
    ensures
        range == chunk_range(*bbox, chunk_x as int, chunk_z as int),
        range.well_formed(),
{
    let first_x: i32 = chunk_x * 16;
    let first_z: i32 = chunk_z * 16;
    XZBBox {
        min_x: if first_x < bbox.min_x {
            bbox.min_x
        } else {
            first_x
        },
        max_x: if first_x + 15 > bbox.max_x {
            bbox.max_x
        } else {
            first_x + 15
        },
        min_z: if first_z < bbox.min_z {
            bbox.min_z
        } else {
            first_z
        },
        max_z: if first_z + 15 > bbox.max_z {
            bbox.max_z
        } else {
            first_z + 15
        },
    }
}

/// The block that is laid at a height of a column, if one is. There is bedrock at the
/// bottom. Above it nothing that is there is replaced. The surface and the two layers
/// below it are left as they are where the surface is stone.
pub open spec fn ground_block(
    existing: Map<i32, Block>,
    ground_y: i32,
    urban: bool,
    fill: bool,
    y: i32,
) -> Option<Block> {
    let is_stone = existing.contains_key(ground_y) && existing[ground_y] == Block::Stone;
    if y == MIN_Y {
        if existing.contains_key(MIN_Y) && existing[MIN_Y] == Block::Bedrock {
            None
        } else {
            Some(Block::Bedrock)
        }
    } else if existing.contains_key(y) {
        None
    } else if y == ground_y && urban {
        Some(Block::SmoothStone)
    } else if y == ground_y {
        Some(Block::GrassBlock)
    } else if ground_y - 2 <= y < ground_y && !is_stone {
        Some(Block::Dirt)
    } else if fill && MIN_Y < y <= ground_y - 3 {
        Some(Block::Stone)
    } else {
        None
    }
}

/// The placements lay exactly the ground of a column, each height at most once.
pub open spec fn lays_ground(
    placements: Seq<Placement>,
    x: i32,
    z: i32,
    existing: Map<i32, Block>,
    ground_y: i32,
    urban: bool,
    fill: bool,
) -> bool {
    &&& forall|i: int|
        0 <= i < placements.len() ==> (#[trigger] placements[i]).x == x && placements[i].z == z
            && ground_block(existing, ground_y, urban, fill, placements[i].y) == Some(
            placements[i].block,
        )
    &&& forall|i: int, j: int|
        0 <= i < j < placements.len() ==> (#[trigger] placements[i]).y != (
        #[trigger] placements[j]).y
    &&& forall|y: i32| #[trigger]
        ground_block(existing, ground_y, urban, fill, y) is Some ==> exists|i: int|
            0 <= i < placements.len() && (#[trigger] placements[i]).y == y
}

/// The ground of the column at the given place, whose surface is at `ground_y`. The blocks
/// that are already there are given by their height.
pub fn ground_column(
    x: i32,
    z: i32,
    existing: &HashMap<i32, Block>,
    ground_y: i32,
    urban: bool,
    fill: bool,
) -> (placements: Vec<Placement>)
    requires
        ground_y >= i32::MIN + 3,
    ensures
        lays_ground(placements@, x, z, existing@, ground_y, urban, fill),
{
    let mut placements: Vec<Placement> = Vec::new();
    let is_stone = match existing.get(&ground_y) {
        Some(block) => *block == Block::Stone,
        None => false,
    };
    if !is_stone {
        let surface = if urban {
            Block::SmoothStone
        } else {
            Block::GrassBlock
        };
        let ghost at_surface = placements@.len() as int;
        if ground_y != MIN_Y && !existing.contains_key(&ground_y) {
            placements.push(Placement { x, y: ground_y, z, block: surface });
        }
        let ghost at_first = placements@.len() as int;
        if ground_y - 1 != MIN_Y && !existing.contains_key(&(ground_y - 1)) {
            placements.push(Placement { x, y: ground_y - 1, z, block: Block::Dirt });
        }
        let ghost at_second = placements@.len() as int;
        if ground_y - 2 != MIN_Y && !existing.contains_key(&(ground_y - 2)) {
            placements.push(Placement { x, y: ground_y - 2, z, block: Block::Dirt });
        }
        proof {
            assert forall|h: i32| #[trigger]
                ground_block(existing@, ground_y, urban, fill, h) is Some && h >= ground_y - 2 && h
                    != MIN_Y implies exists|i: int|
                0 <= i < placements@.len() && (#[trigger] placements@[i]).y == h by {
                if h == ground_y {
                    assert(placements@[at_surface].y == h);
                } else if h == ground_y - 1 {
                    assert(placements@[at_first].y == h);
                } else {
                    assert(placements@[at_second].y == h);
                }
            }
        }
    }
    if fill {
        let mut y: i32 = MIN_Y + 1;
        while y <= ground_y - 3
            invariant
                fill,
                ground_y >= i32::MIN + 3,
                MIN_Y < y,
                y <= ground_y - 2 || y == MIN_Y + 1,
                is_stone == (existing@.contains_key(ground_y) && existing@[ground_y]
                    == Block::Stone),
                forall|i: int|
                    0 <= i < placements@.len() ==> (#[trigger] placements@[i]).x == x
                        && placements@[i].z == z && ground_block(
                        existing@,
                        ground_y,
                        urban,
                        fill,
                        placements@[i].y,
                    ) == Some(placements@[i].block) && placements@[i].y != MIN_Y && (
                    placements@[i].y >= ground_y - 2 || MIN_Y < placements@[i].y < y),
                forall|i: int, j: int|
                    0 <= i < j < placements@.len() ==> (#[trigger] placements@[i]).y != (
                    #[trigger] placements@[j]).y,
                forall|h: i32| #[trigger]
                    ground_block(existing@, ground_y, urban, fill, h) is Some && (h >= ground_y - 2
                        || h < y) ==> h == MIN_Y || exists|i: int|
                        0 <= i < placements@.len() && (#[trigger] placements@[i]).y == h,
            decreases ground_y - y,
        {
            let ghost before = placements@;
            if !existing.contains_key(&y) {
                placements.push(Placement { x, y, z, block: Block::Stone });
            }
            proof {
                assert forall|h: i32| #[trigger]
                    ground_block(existing@, ground_y, urban, fill, h) is Some && (h >= ground_y - 2
                        || h < y + 1) && h != MIN_Y implies exists|i: int|
                    0 <= i < placements@.len() && (#[trigger] placements@[i]).y == h by {
                    if h == y {
                        assert(placements@[before.len() as int].y == h);
                    } else {
                        let i = choose|i: int|
                            0 <= i < before.len() && (#[trigger] before[i]).y == h;
                        assert(placements@[i].y == h);
                    }
                }
            }
            y = y + 1;
        }
    }
    let has_bedrock = match existing.get(&MIN_Y) {
        Some(block) => *block == Block::Bedrock,
        None => false,
    };
    let ghost before = placements@;
    if !has_bedrock {
        placements.push(Placement { x, y: MIN_Y, z, block: Block::Bedrock });
    }
    proof {
        assert forall|h: i32| #[trigger]
            ground_block(existing@, ground_y, urban, fill, h) is Some implies exists|i: int|
            0 <= i < placements@.len() && (#[trigger] placements@[i]).y == h by {
            if h == MIN_Y {
                assert(placements@[before.len() as int].y == h);
            } else {
                let i = choose|i: int| 0 <= i < before.len() && (#[trigger] before[i]).y == h;
                assert(placements@[i].y == h);
            }
        }
    }
    placements
}

/// What decides the ground of a column.
pub struct Column {
    /// The blocks that are already there, by their height.
    pub existing: HashMap<i32, Block>,
    /// The height of the surface.
    pub ground_y: i32,
    /// The column is in a city.
    pub urban: bool,
}

/// The number of columns of a rectangle along the z axis.
pub open spec fn columns_along_z(range: XZBBox) -> int {
    range.max_z - range.min_z + 1
}

/// The number of columns of a rectangle.
pub open spec fn column_count(range: XZBBox) -> int {
    (range.max_x - range.min_x + 1) * columns_along_z(range)
}

/// The place of the column with the given number, in rows from the least x on.
pub open spec fn column_at(range: XZBBox, i: int) -> (int, int) {
    (range.min_x + i / columns_along_z(range), range.min_z + i % columns_along_z(range))
}

/// The ground of every column of a rectangle, in rows from the least x on.
pub fn ground_of_columns(range: &XZBBox, columns: &Vec<Column>, fill: bool) -> (ground: Vec<
    Vec<Placement>,
>)
    requires
        range.well_formed(),
        columns@.len() == column_count(*range),
        forall|i: int| 0 <= i < columns@.len() ==> (#[trigger] columns@[i]).ground_y >= i32::MIN + 3,
    ensures
        ground@.len() == columns@.len(),
        forall|i: int|
            0 <= i < ground@.len() ==> lays_ground(
                (#[trigger] ground@[i])@,
                column_at(*range, i).0 as i32,
                column_at(*range, i).1 as i32,
                columns@[i].existing@,
                columns@[i].ground_y,
                columns@[i].urban,
                fill,
            ),
{
    let mut ground: Vec<Vec<Placement>> = Vec::new();
    let mut x: i32 = range.min_x;
    let mut z: i32 = range.min_z;
    let mut i: usize = 0;
    let ghost along_z = columns_along_z(*range);
    while i < columns.len()
        invariant
            range.well_formed(),
            columns@.len() == column_count(*range),
            along_z == columns_along_z(*range),
            forall|k: int|
                0 <= k < columns@.len() ==> (#[trigger] columns@[k]).ground_y >= i32::MIN + 3,
            i <= columns@.len(),
            ground@.len() == i,
            i < columns@.len() ==> range.holds(x as int, z as int) && i == (x - range.min_x)
                * along_z + (z - range.min_z),
            forall|k: int|
                0 <= k < ground@.len() ==> lays_ground(
                    (#[trigger] ground@[k])@,
                    column_at(*range, k).0 as i32,
                    column_at(*range, k).1 as i32,
                    columns@[k].existing@,
                    columns@[k].ground_y,
                    columns@[k].urban,
                    fill,
                ),
        decreases columns@.len() - i,
    {
        let column = &columns[i];
        proof {
            lemma_fundamental_div_mod_converse(
                i as int,
                along_z,
                x - range.min_x,
                z - range.min_z,
            );
        }
        ground.push(
            ground_column(x, z, &column.existing, column.ground_y, column.urban, fill),
        );
        i = i + 1;
        if i < columns.len() {
            proof {
                lemma_mul_is_distributive_add_other_way(along_z, x - range.min_x, 1);
                assert(z == range.max_z ==> x < range.max_x) by (nonlinear_arith)
                    requires
                        i < (range.max_x - range.min_x + 1) * along_z,
                        i - 1 == (x - range.min_x) * along_z + (z - range.min_z),
                        along_z == range.max_z - range.min_z + 1,
                        x <= range.max_x,
                        along_z > 0,
                ;
            }
            if z < range.max_z {
                z = z + 1;
            } else {
                z = range.min_z;
                x = x + 1;
            }
        }
    }
    ground
}

/// The percentage after the given number of chunks, where it is to be shown.
pub fn ground_report(done: u64, total: u64) -> (report: Option<u64>)
    requires
        total > 0,
    ensures
        report == if report_due(done as nat, total as nat, GROUND_REPORTS as nat) {
            Some(percentage(GROUND_START, GROUND_SHARE, done as nat, total as nat))
        } else {
            None
        },
{
    if is_report_due(done, total, GROUND_REPORTS) {
        Some(percentage_of(GROUND_START, GROUND_SHARE, done, total))
    } else {
        None
    }
}

/// Every column of a rectangle lies in the columns of exactly one of the chunks that the
/// rectangle touches, and that chunk is among those that are gone through.
pub proof fn law_every_column_in_one_chunk(bbox: XZBBox, x: int, z: int)
    requires
        bbox.well_formed(),
        bbox.holds(x, z),
    ensures
        ({
            let i = (x / 16 - bbox.min_x as int / 16) * chunks_along_z(bbox) + (z / 16
                - bbox.min_z as int / 16);
            0 <= i < chunks_along_x(bbox) * chunks_along_z(bbox) && chunk_at(bbox, i) == (
                x / 16,
                z / 16,
            )
        }),
        chunk_range(bbox, x / 16, z / 16).holds(x, z),
        forall|chunk_x: int, chunk_z: int|
            touches(bbox, chunk_x, chunk_z) && #[trigger] chunk_range(
                bbox,
                chunk_x,
                chunk_z,
            ).holds(x, z) ==> chunk_x == x / 16 && chunk_z == z / 16,
{
    let along_z = chunks_along_z(bbox);
    let across = x / 16 - bbox.min_x as int / 16;
    let down = z / 16 - bbox.min_z as int / 16;
    let i = across * along_z + down;
    assert(0 <= i < chunks_along_x(bbox) * along_z) by (nonlinear_arith)
        requires
            0 <= across <= chunks_along_x(bbox) - 1,
            0 <= down < along_z,
            i == across * along_z + down,
    ;
    lemma_fundamental_div_mod_converse(i, along_z, across, down);
}

/// No chunk is gone through twice, and the rectangle touches each of them.
pub proof fn law_chunks_differ(bbox: XZBBox, i: int, j: int)
    requires
        bbox.well_formed(),
        0 <= i < j < chunks_along_x(bbox) * chunks_along_z(bbox),
    ensures
        chunk_at(bbox, i) != chunk_at(bbox, j),
        touches(bbox, chunk_at(bbox, i).0, chunk_at(bbox, i).1),
        touches(bbox, chunk_at(bbox, j).0, chunk_at(bbox, j).1),
{
    let along_x = chunks_along_x(bbox);
    let along_z = chunks_along_z(bbox);
    lemma_fundamental_div_mod(i, along_z);
    lemma_fundamental_div_mod(j, along_z);
    lemma_mul_is_commutative(along_x, along_z);
    lemma_div_pos_is_pos(i, along_z);
    lemma_div_pos_is_pos(j, along_z);
    lemma_multiply_divide_lt(i, along_z, along_x);
    lemma_multiply_divide_lt(j, along_z, along_x);
}

/// A column after its ground was laid.
pub open spec fn column_after(
    existing: Map<i32, Block>,
    ground_y: i32,
    urban: bool,
    fill: bool,
) -> Map<i32, Block> {
    Map::new(
        |y: i32|
            existing.contains_key(y) || ground_block(existing, ground_y, urban, fill, y) is Some,
        |y: i32|
            match ground_block(existing, ground_y, urban, fill, y) {
                Some(block) => block,
                None => existing[y],
            },
    )
}

/// Under every column there is bedrock.
pub proof fn law_bedrock_at_bottom(
    existing: Map<i32, Block>,
    ground_y: i32,
    urban: bool,
    fill: bool,
)
    ensures
        column_after(existing, ground_y, urban, fill).contains_key(MIN_Y),
        column_after(existing, ground_y, urban, fill)[MIN_Y] == Block::Bedrock,
{
}

/// Above the bottom, no block that was there before the ground is replaced or removed.
pub proof fn law_nothing_replaced(
    existing: Map<i32, Block>,
    ground_y: i32,
    urban: bool,
    fill: bool,
    y: i32,
)
    requires
        y != MIN_Y,
        existing.contains_key(y),
    ensures
        column_after(existing, ground_y, urban, fill).contains_key(y),
        column_after(existing, ground_y, urban, fill)[y] == existing[y],
{
}

/// A filled column has no gap from the bottom to its surface, unless its surface was stone
/// before.
pub proof fn law_filled_without_gap(
    existing: Map<i32, Block>,
    ground_y: i32,
    urban: bool,
    y: i32,
)
    requires
        MIN_Y <= y <= ground_y,
        !(existing.contains_key(ground_y) && existing[ground_y] == Block::Stone),
    ensures
        column_after(existing, ground_y, urban, true).contains_key(y),
{
}

/// What lies at each height of a column whose ground was laid, where nothing was before and
/// it is not the bottom: grass or smooth stone on the surface; two layers of dirt below it,
/// whatever the surface is made of, unless that is stone; stone from there to the bottom if
/// the ground is filled; and nothing anywhere else.
pub proof fn law_layers_of_ground(
    existing: Map<i32, Block>,
    ground_y: i32,
    urban: bool,
    fill: bool,
    y: i32,
)
    requires
        y != MIN_Y,
        !existing.contains_key(y),
    ensures
        ({
            let after = column_after(existing, ground_y, urban, fill);
            let surface_is_stone = existing.contains_key(ground_y) && existing[ground_y]
                == Block::Stone;
            &&& y == ground_y && urban ==> after.contains_key(y) && after[y] == Block::SmoothStone
            &&& y == ground_y && !urban ==> after.contains_key(y) && after[y] == Block::GrassBlock
            &&& (y == ground_y - 1 || y == ground_y - 2) && !surface_is_stone
                ==> after.contains_key(y) && after[y] == Block::Dirt
            &&& (y == ground_y - 1 || y == ground_y - 2) && surface_is_stone
                ==> !after.contains_key(y)
            &&& MIN_Y < y <= ground_y - 3 && fill ==> after.contains_key(y) && after[y]
                == Block::Stone
            &&& y <= ground_y - 3 && (!fill || y < MIN_Y) ==> !after.contains_key(y)
            &&& y > ground_y ==> !after.contains_key(y)
        }),
{
}

/// A column has no hole right under its surface: the surface and the two heights below it
/// hold a block, with or without filling and whatever block is on the surface, unless that
/// was stone before.
pub proof fn law_no_hole_under_surface(
    existing: Map<i32, Block>,
    ground_y: i32,
    urban: bool,
    fill: bool,
    y: i32,
)
    requires
        ground_y - 2 <= y <= ground_y,
        !(existing.contains_key(ground_y) && existing[ground_y] == Block::Stone),
    ensures
        column_after(existing, ground_y, urban, fill).contains_key(y),
        y != ground_y && y != MIN_Y && !existing.contains_key(y) ==> column_after(
            existing,
            ground_y,
            urban,
            fill,
        )[y] == Block::Dirt,
{
}

/// Placing the blocks that are laid turns what was there into the column with its ground:
/// each is at the place of the column and is what the column has at its height, and every
/// height at which the column has changed gets one.
pub proof fn law_placements_make_the_column(
    placements: Seq<Placement>,
    x: i32,
    z: i32,
    existing: Map<i32, Block>,
    ground_y: i32,
    urban: bool,
    fill: bool,
)
    requires
        lays_ground(placements, x, z, existing, ground_y, urban, fill),
    ensures
        ({
            let after = column_after(existing, ground_y, urban, fill);
            &&& forall|i: int|
                0 <= i < placements.len() ==> {
                    let placed = #[trigger] placements[i];
                    placed.x == x && placed.z == z && after.contains_key(placed.y)
                        && after[placed.y] == placed.block
                }
            &&& forall|y: i32| #[trigger]
                after.contains_key(y) && !(existing.contains_key(y) && existing[y] == after[y])
                    ==> exists|i: int| 0 <= i < placements.len() && (#[trigger] placements[i]).y == y
            &&& forall|i: int, j: int|
                0 <= i < j < placements.len() ==> (#[trigger] placements[i]).y != (
                #[trigger] placements[j]).y
        }),
{
    let after = column_after(existing, ground_y, urban, fill);
    assert forall|y: i32| #[trigger]
        after.contains_key(y) && !(existing.contains_key(y) && existing[y] == after[y]) implies exists|
        i: int,
    |
        0 <= i < placements.len() && (#[trigger] placements[i]).y == y by {
        assert(ground_block(existing, ground_y, urban, fill, y) is Some);
    }
}

/// The columns of a chunk are those of the rectangle that lie in the chunk, and no others.
pub proof fn law_columns_of_chunk(bbox: XZBBox, chunk_x: int, chunk_z: int, x: int, z: int)
    requires
        bbox.well_formed(),
        touches(bbox, chunk_x, chunk_z),
    ensures
        chunk_range(bbox, chunk_x, chunk_z).holds(x, z) <==> bbox.min_x <= x <= bbox.max_x
            && bbox.min_z <= z <= bbox.max_z && chunk_x * 16 <= x < chunk_x * 16 + 16 && chunk_z
            * 16 <= z < chunk_z * 16 + 16,
{
}

/// The columns of a rectangle are numbered: each has one number, and each number under their
/// count has one of them.
pub proof fn law_columns_numbered(range: XZBBox, x: int, z: int, i: int)
    requires
        range.well_formed(),
    ensures
        range.min_x <= x <= range.max_x && range.min_z <= z <= range.max_z ==> {
            let number = (x - range.min_x) * (range.max_z - range.min_z + 1) + (z - range.min_z);
            &&& 0 <= number < column_count(range)
            &&& column_at(range, number) == (x, z)
        },
        0 <= i < column_count(range) ==> {
            let (a, b) = column_at(range, i);
            &&& range.min_x <= a <= range.max_x
            &&& range.min_z <= b <= range.max_z
            &&& i == (a - range.min_x) * (range.max_z - range.min_z + 1) + (b - range.min_z)
        },
{
    let along_z = range.max_z - range.min_z + 1;
    let along_x = range.max_x - range.min_x + 1;
    if range.min_x <= x <= range.max_x && range.min_z <= z <= range.max_z {
        let across = x - range.min_x;
        let down = z - range.min_z;
        let number = across * along_z + down;
        assert(0 <= number < along_x * along_z) by (nonlinear_arith)
            requires
                0 <= across <= along_x - 1,
                0 <= down < along_z,
                number == across * along_z + down,
        ;
        lemma_fundamental_div_mod_converse(number, along_z, across, down);
    }
    if 0 <= i < column_count(range) {
        lemma_fundamental_div_mod(i, along_z);
        lemma_mul_is_commutative(along_x, along_z);
        lemma_multiply_divide_lt(i, along_z, along_x);
        lemma_div_pos_is_pos(i, along_z);
        lemma_mul_is_commutative(i / along_z, along_z);
    }
}

/// The chunks that are gone through are those that hold a column of the rectangle.
pub proof fn law_chunks_touched(bbox: XZBBox, chunk_x: int, chunk_z: int)
    requires
        bbox.well_formed(),
    ensures
        touches(bbox, chunk_x, chunk_z) <==> exists|x: int, z: int|
            #[trigger] bbox.holds(x, z) && chunk_x * 16 <= x < chunk_x * 16 + 16 && chunk_z * 16
                <= z < chunk_z * 16 + 16,
{
    if touches(bbox, chunk_x, chunk_z) {
        let range = chunk_range(bbox, chunk_x, chunk_z);
        law_columns_of_chunk(bbox, chunk_x, chunk_z, range.min_x as int, range.min_z as int);
        assert(bbox.holds(range.min_x as int, range.min_z as int));
    }
}

/// Nothing more is laid in a column whose ground was laid, unless its surface was stone at
/// the very bottom: there bedrock replaces the stone, and stone no longer keeps the layers
/// below it empty.
pub proof fn law_ground_laid_once(
    existing: Map<i32, Block>,
    ground_y: i32,
    urban: bool,
    fill: bool,
    y: i32,
)
    requires
        !(ground_y == MIN_Y && existing.contains_key(MIN_Y) && existing[MIN_Y] == Block::Stone),
    ensures
        ground_block(column_after(existing, ground_y, urban, fill), ground_y, urban, fill, y)
            is None,
{
}

} // verus!
