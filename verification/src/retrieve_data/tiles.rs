//! Cutting a bounding box into a grid of tiles.

use crate::ieee754::{
    add_double, ceiling_of, ceiling_up_to, difference, distance, divide_double, double_of,
    lemma_count_bounds, lemma_power_magnitude, lemma_rounded_bound, lemma_units_bound,
    lemma_units_ordered, magnitude, multiply_double, nearest, negated, product, quotient, rounded,
    subtract_double, sum, units, HIDDEN, ONE_SHIFT,
};
use crate::coordinate_system::{LLBBox, LLPoint};
use vstd::arithmetic::div_mod::*;
use vstd::arithmetic::mul::*;
use vstd::arithmetic::power2::*;
use vstd::prelude::*;

verus! {

/// The bits of the double 0.03: the span in degrees that one initial tile may have.
pub const INITIAL_TILE_MAX_SPAN_DEGREES: u64 = 0x3f9e_b851_eb85_1eb8;

/// The most tiles into which an axis is cut at the start.
pub const MAX_TILES_PER_AXIS: usize = 8;

/// The width of one of `tiles` equal parts from `min` to `max`, in double precision.
#[verifier::opaque]
pub open spec fn step(min: u64, max: u64, tiles: nat) -> u64 {
    quotient(difference(max, min), nearest(tiles))
}

/// The edge with number `index` of the `tiles` equal parts from `min` to `max`. The
/// last edge is `max` itself; the others are computed in double precision.
#[verifier::opaque]
pub open spec fn edge(min: u64, max: u64, tiles: nat, index: nat) -> u64 {
    if index == tiles {
        max
    } else {
        sum(min, product(step(min, max, tiles), nearest(index)))
    }
}

/// The tile in row `row` and column `column` of a grid. Rows count from the south,
/// columns from the west.
#[verifier::opaque]
pub open spec fn tile(
    bbox: LLBBox,
    lat_tiles: nat,
    lng_tiles: nat,
    row: nat,
    column: nat,
) -> LLBBox {
    LLBBox {
        min: LLPoint {
            lat: edge(bbox.min.lat, bbox.max.lat, lat_tiles, row),
            lng: edge(bbox.min.lng, bbox.max.lng, lng_tiles, column),
        },
        max: LLPoint {
            lat: edge(bbox.min.lat, bbox.max.lat, lat_tiles, row + 1),
            lng: edge(bbox.min.lng, bbox.max.lng, lng_tiles, column + 1),
        },
    }
}

/// Those of the first `count` tiles of a grid, row by row, that are bounding boxes.
pub open spec fn first_tiles(bbox: LLBBox, lat_tiles: nat, lng_tiles: nat, count: nat) -> Seq<LLBBox>
    decreases count,
{
    if count == 0 {
        Seq::empty()
    } else {
        let last = (count - 1) as nat;
        let next = tile(bbox, lat_tiles, lng_tiles, last / lng_tiles, last % lng_tiles);
        let before = first_tiles(bbox, lat_tiles, lng_tiles, last);
        if next.well_formed() {
            before.push(next)
        } else {
            before
        }
    }
}

/// Every tile of a grid is a bounding box.
pub proof fn lemma_first_tiles_well_formed(
    bbox: LLBBox,
    lat_tiles: nat,
    lng_tiles: nat,
    count: nat,
)
    requires
        lng_tiles > 0,
    ensures
        forall|i: int|
            0 <= i < first_tiles(bbox, lat_tiles, lng_tiles, count).len() ==> (
            #[trigger] first_tiles(bbox, lat_tiles, lng_tiles, count)[i]).well_formed(),
    decreases count,
{
    if count > 0 {
        let last = (count - 1) as nat;
        lemma_first_tiles_well_formed(bbox, lat_tiles, lng_tiles, last);
        let before = first_tiles(bbox, lat_tiles, lng_tiles, last);
        let all = first_tiles(bbox, lat_tiles, lng_tiles, count);
        let next = tile(bbox, lat_tiles, lng_tiles, last / lng_tiles, last % lng_tiles);
        if next.well_formed() {
            assert(all == before.push(next));
            assert forall|i: int| 0 <= i < all.len() implies (#[trigger] all[i]).well_formed() by {
                if i < before.len() {
                    assert(all[i] == before[i]);
                }
            }
        }
    }
}

/// At least one.
pub open spec fn at_least_one(tiles: nat) -> nat {
    if tiles == 0 {
        1
    } else {
        tiles
    }
}

/// The tiles of a grid of `lat_tiles` rows and `lng_tiles` columns; without rows there
/// is one row, and without columns one column.
#[verifier::opaque]
pub open spec fn grid(bbox: LLBBox, lat_tiles: nat, lng_tiles: nat) -> Seq<LLBBox> {
    let rows = at_least_one(lat_tiles);
    let columns = at_least_one(lng_tiles);
    first_tiles(bbox, rows, columns, rows * columns)
}

/// The number of tiles for an axis of the given span: as many as keep each within the
/// largest initial span, but at least one and at most the maximum.
#[verifier::opaque]
pub open spec fn tile_count(span: u64) -> nat {
    let wanted = ceiling_of(quotient(span, INITIAL_TILE_MAX_SPAN_DEGREES));
    if wanted < 1 {
        1
    } else if wanted > MAX_TILES_PER_AXIS {
        MAX_TILES_PER_AXIS as nat
    } else {
        wanted
    }
}

/// The tiles that a bounding box is cut into before anything is asked for.
#[verifier::opaque]
pub open spec fn initial_tiles(bbox: LLBBox) -> Seq<LLBBox> {
    grid(
        bbox,
        tile_count(difference(bbox.max.lat, bbox.min.lat)),
        tile_count(difference(bbox.max.lng, bbox.min.lng)),
    )
}

/// What the edges of a grid are made from stays far from the largest doubles.
pub proof fn lemma_edge_moderate(min: u64, max: u64, tiles: u64)
    requires
        tiles > 0,
        magnitude(min) <= 1031 * HIDDEN,
        magnitude(max) <= 1031 * HIDDEN,
    ensures
        magnitude(difference(max, min)) <= 1032 * HIDDEN,
        magnitude(step(min, max, tiles as nat)) <= 1032 * HIDDEN,
        forall|index: u64| #[trigger]
            magnitude(product(step(min, max, tiles as nat), nearest(index as nat))) <= 1097 * HIDDEN,
{
    reveal(step);
    let one = pow2(ONE_SHIFT as nat);
    lemma_pow2_pos(ONE_SHIFT as nat);
    lemma_units_bound(magnitude(min), 1031);
    lemma_units_bound(magnitude(max), 1031);
    lemma_pow2_unfold(1083);
    let exact = units(max) - units(min);
    assert(magnitude(negated(min)) == magnitude(min));
    assert(units(negated(min)) == -units(min));
    lemma_rounded_bound(distance(exact), 1, 1032);
    let span = difference(max, min);
    assert(magnitude(span) <= 1032 * HIDDEN);
    lemma_units_bound(magnitude(span), 1032);
    lemma_count_bounds(tiles);
    let count = distance(units(nearest(tiles as nat)));
    assert(distance(units(span)) * one <= count * pow2(1083)) by {
        lemma_mul_inequality(distance(units(span)) as int, pow2(1083) as int, one as int);
        lemma_mul_inequality(one as int, count as int, pow2(1083) as int);
        lemma_mul_is_commutative(pow2(1083) as int, one as int);
    }
    lemma_rounded_bound(distance(units(span)) * one, count, 1032);
    let width = step(min, max, tiles as nat);
    assert(magnitude(width) <= 1032 * HIDDEN);
    lemma_units_bound(magnitude(width), 1032);
    assert forall|index: u64| #[trigger]
        magnitude(product(width, nearest(index as nat))) <= 1097 * HIDDEN by {
        let factor = distance(units(nearest(index as nat)));
        if index > 0 {
            lemma_count_bounds(index);
        } else {
            lemma_rounded_bound(0, 1, 1087);
            lemma_units_bound(rounded(0, 1), 1087);
        }
        lemma_pow2_adds(64, ONE_SHIFT as nat);
        lemma_pow2_adds(1083, 64);
        assert(distance(units(width)) * factor <= one * pow2(1147)) by (nonlinear_arith)
            requires
                distance(units(width)) <= pow2(1083),
                factor <= pow2(1138),
                pow2(1138) == pow2(64) * one,
                pow2(1147) == pow2(1083) * pow2(64),
        ;
        lemma_rounded_bound(distance(units(width)) * factor, one, 1096);
    }
}

/// The width of one of `tiles` equal parts from `min` to `max`.
fn step_of(min: u64, max: u64, tiles: usize) -> (width: u64)
    requires
        tiles > 0,
        magnitude(min) <= 1031 * HIDDEN,
        magnitude(max) <= 1031 * HIDDEN,
    ensures
        width == step(min, max, tiles as nat),
{
    proof {
        reveal(step);
        lemma_edge_moderate(min, max, tiles as u64);
    }
    let span = subtract_double(max, min);
    let count = double_of(tiles as u64);
    divide_double(span, count)
}

/// An edge of one of `tiles` equal parts from `min` to `max`.
fn edge_at(min: u64, max: u64, tiles: usize, index: usize, width: u64) -> (at: u64)
    requires
        index <= tiles,
        tiles > 0,
        magnitude(min) <= 1031 * HIDDEN,
        magnitude(max) <= 1031 * HIDDEN,
        width == step(min, max, tiles as nat),
    ensures
        at == edge(min, max, tiles as nat, index as nat),
{
    proof {
        reveal(edge);
    }
    if index == tiles {
        return max;
    }
    proof {
        lemma_edge_moderate(min, max, tiles as u64);
        assert(magnitude(product(width, nearest(index as u64 as nat))) <= 1097 * HIDDEN);
    }
    let count = double_of(index as u64);
    let offset = multiply_double(width, count);
    add_double(min, offset)
}

/// The edges are far from the largest doubles.
spec fn edges_moderate(bbox: LLBBox) -> bool {
    &&& magnitude(bbox.min.lat) <= 1031 * HIDDEN
    &&& magnitude(bbox.max.lat) <= 1031 * HIDDEN
    &&& magnitude(bbox.min.lng) <= 1031 * HIDDEN
    &&& magnitude(bbox.max.lng) <= 1031 * HIDDEN
}

proof fn lemma_edges_moderate(bbox: LLBBox)
    requires
        bbox.well_formed(),
    ensures
        edges_moderate(bbox),
{
    reveal(LLBBox::well_formed);
}

/// The tiles of a grid over a bounding box, row by row from the south-west corner.
/// A tile that rounding leaves without an extent is left out.
pub fn split_bbox_into_grid(bbox: LLBBox, lat_tiles: usize, lng_tiles: usize) -> (tiles: Vec<LLBBox>)
    requires
        bbox.well_formed(),
    ensures
        tiles@ == grid(bbox, lat_tiles as nat, lng_tiles as nat),
        forall|i: int| 0 <= i < tiles@.len() ==> (#[trigger] tiles@[i]).well_formed(),
{
    let rows: usize = if lat_tiles == 0 {
        1
    } else {
        lat_tiles
    };
    let columns: usize = if lng_tiles == 0 {
        1
    } else {
        lng_tiles
    };
    proof {
        lemma_edges_moderate(bbox);
    }
    let lat_step = step_of(bbox.min.lat, bbox.max.lat, rows);
    let lng_step = step_of(bbox.min.lng, bbox.max.lng, columns);
    let mut tiles: Vec<LLBBox> = Vec::new();
    let mut row: usize = 0;
    while row < rows
        invariant
            edges_moderate(bbox),
            rows == at_least_one(lat_tiles as nat),
            columns == at_least_one(lng_tiles as nat),
            lat_step == step(bbox.min.lat, bbox.max.lat, rows as nat),
            lng_step == step(bbox.min.lng, bbox.max.lng, columns as nat),
            row <= rows,
            tiles@ == first_tiles(bbox, rows as nat, columns as nat, (row * columns) as nat),
        decreases rows - row,
    {
        let min_lat = edge_at(bbox.min.lat, bbox.max.lat, rows, row, lat_step);
        let max_lat = edge_at(bbox.min.lat, bbox.max.lat, rows, row + 1, lat_step);
        let mut column: usize = 0;
        while column < columns
            invariant
                edges_moderate(bbox),
                rows == at_least_one(lat_tiles as nat),
                columns == at_least_one(lng_tiles as nat),
                lng_step == step(bbox.min.lng, bbox.max.lng, columns as nat),
                row < rows,
                column <= columns,
                min_lat == edge(bbox.min.lat, bbox.max.lat, rows as nat, row as nat),
                max_lat == edge(bbox.min.lat, bbox.max.lat, rows as nat, (row + 1) as nat),
                tiles@ == first_tiles(
                    bbox,
                    rows as nat,
                    columns as nat,
                    (row * columns + column) as nat,
                ),
            decreases columns - column,
        {
            let min_lng = edge_at(bbox.min.lng, bbox.max.lng, columns, column, lng_step);
            let max_lng = edge_at(bbox.min.lng, bbox.max.lng, columns, column + 1, lng_step);
            proof {
                reveal(tile);
                lemma_fundamental_div_mod_converse(
                    row * columns + column,
                    columns as int,
                    row as int,
                    column as int,
                );
                lemma_mul_nonnegative(row as int, columns as int);
            }
            if let Ok(next) = LLBBox::new(min_lat, min_lng, max_lat, max_lng) {
                tiles.push(next);
            }
            column = column + 1;
        }
        proof {
            lemma_mul_is_distributive_add_other_way(columns as int, row as int, 1);
        }
        row = row + 1;
    }
    proof {
        reveal(grid);
        lemma_first_tiles_well_formed(bbox, rows as nat, columns as nat, (rows * columns) as nat);
    }
    tiles
}

/// The number of tiles for an axis of the given span in degrees.
fn tile_count_for_span(span: u64) -> (count: usize)
    requires
        magnitude(span) <= 1032 * HIDDEN,
    ensures
        count == tile_count(span),
{
    let whole = divide_double(span, INITIAL_TILE_MAX_SPAN_DEGREES);
    proof {
        let one = pow2(ONE_SHIFT as nat);
        let part = distance(units(INITIAL_TILE_MAX_SPAN_DEGREES));
        lemma_units_bound(magnitude(span), 1032);
        lemma_power_magnitude(1017);
        lemma_units_ordered((1017 * HIDDEN) as nat, magnitude(INITIAL_TILE_MAX_SPAN_DEGREES));
        assert(part >= pow2(1068));
        lemma_pow2_pos(1068);
        lemma_pow2_adds(1083, ONE_SHIFT as nat);
        lemma_pow2_adds(1068, 1089);
        lemma_mul_inequality(distance(units(span)) as int, pow2(1083) as int, one as int);
        lemma_mul_inequality(pow2(1068) as int, part as int, pow2(1089) as int);
        lemma_rounded_bound(distance(units(span)) * one, part, 1038);
    }
    proof {
        reveal(tile_count);
    }
    let wanted = ceiling_up_to(whole, MAX_TILES_PER_AXIS as u32);
    if wanted < 1 {
        1
    } else {
        wanted as usize
    }
}

/// The tiles that a bounding box is cut into before anything is asked for.
pub fn initial_tiles_for_bbox(bbox: LLBBox) -> (tiles: Vec<LLBBox>)
    requires
        bbox.well_formed(),
    ensures
        tiles@ == initial_tiles(bbox),
        forall|i: int| 0 <= i < tiles@.len() ==> (#[trigger] tiles@[i]).well_formed(),
{
    proof {
        reveal(initial_tiles);
        lemma_edges_moderate(bbox);
        lemma_edge_moderate(bbox.min.lat, bbox.max.lat, 1);
        lemma_edge_moderate(bbox.min.lng, bbox.max.lng, 1);
    }
    let lat_tiles = tile_count_for_span(subtract_double(bbox.max.lat, bbox.min.lat));
    let lng_tiles = tile_count_for_span(subtract_double(bbox.max.lng, bbox.min.lng));
    split_bbox_into_grid(bbox, lat_tiles, lng_tiles)
}

} // verus!
