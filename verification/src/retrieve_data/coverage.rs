//! What a grid of tiles promises of the bounding box that it is made of.

use crate::coordinate_system::{LLBBox, NINETY, ONE_EIGHTY};
use crate::ieee754::{
    ceiling, difference, distance, is_negative, lemma_nearest_exact, lemma_power_magnitude,
    lemma_rounded_bound, lemma_rounded_double, lemma_rounded_ordered, lemma_rounding_error,
    lemma_rounding_error_below, lemma_signed_units, lemma_sum_units, lemma_units_bound,
    lemma_units_ordered, magnitude, nearest, negated, product, quotient, rounded, rounded_units,
    shift_of, signed, significand_of, units, units_of, HIDDEN, ONE_SHIFT,
};
use crate::retrieve_data::tiles::{
    at_least_one, edge, first_tiles, grid, initial_tiles, lemma_edge_moderate, step, tile,
    tile_count, INITIAL_TILE_MAX_SPAN_DEGREES, MAX_TILES_PER_AXIS,
};
use vstd::arithmetic::div_mod::*;
use vstd::arithmetic::mul::*;
use vstd::arithmetic::power2::*;
use vstd::prelude::*;

verus! {

/// The most rows and columns of which something is promised.
pub const MAX_GRID: u64 = 0x10_0000;

/// The least extent, in units, with which no computed edge passes the last one: two to the
/// power of 41, which is two to the power of -1033 degrees.
pub const LEAST_EXTENT: u64 = 0x200_0000_0000;

/// Two numbers of degrees, the lower one first.
spec fn is_axis(min: u64, max: u64) -> bool {
    &&& magnitude(min) <= 1031 * HIDDEN
    &&& magnitude(max) <= 1031 * HIDDEN
    &&& units(min) < units(max)
}

/// The span of an axis is rounded up by at most one part in two to the power of 53.
proof fn lemma_span(min: u64, max: u64)
    requires
        is_axis(min, max),
    ensures
        !is_negative(difference(max, min)),
        0 <= units(difference(max, min)),
        magnitude(difference(max, min)) <= 1032 * HIDDEN,
        units(difference(max, min)) * (2 * HIDDEN) <= (units(max) - units(min)) * (2 * HIDDEN + 1),
{
    let exact = units(max) - units(min);
    lemma_edge_moderate(min, max, 1);
    assert(magnitude(negated(min)) == magnitude(min));
    assert(units(negated(min)) == -units(min));
    lemma_units_bound(magnitude(min), 1031);
    lemma_units_bound(magnitude(max), 1031);
    lemma_pow2_unfold(1083);
    lemma_rounded_bound(distance(exact), 1, 1032);
    lemma_signed_units(false, rounded(distance(exact), 1));
    lemma_rounding_error(distance(exact), 1);
}

/// A fraction whose parts are both multiplied by one in units is rounded as before.
proof fn lemma_rounded_in_units(n: nat, d: nat)
    requires
        d > 0,
    ensures
        rounded(n * pow2(ONE_SHIFT as nat), d * pow2(ONE_SHIFT as nat)) == rounded(n, d),
{
    let one = pow2(ONE_SHIFT as nat);
    lemma_pow2_pos(ONE_SHIFT as nat);
    lemma_mul_strictly_positive(d as int, one as int);
    assert((n * one) * d == n * (d * one)) by (nonlinear_arith);
    lemma_rounded_ordered(n * one, d * one, n, d);
    lemma_rounded_ordered(n, d, n * one, d * one);
}

/// The width of a part is rounded up by little.
proof fn lemma_width(min: u64, max: u64, tiles: u64)
    requires
        is_axis(min, max),
        0 < tiles <= MAX_GRID,
    ensures
        !is_negative(step(min, max, tiles as nat)),
        0 <= units(step(min, max, tiles as nat)),
        magnitude(step(min, max, tiles as nat)) <= 1032 * HIDDEN,
        (units(step(min, max, tiles as nat)) * tiles) * (4 * HIDDEN) <= units(difference(max, min))
            * (4 * HIDDEN + 2) + tiles * (2 * HIDDEN),
{
    reveal(step);
    let one = pow2(ONE_SHIFT as nat);
    lemma_pow2_pos(ONE_SHIFT as nat);
    lemma_span(min, max);
    lemma_edge_moderate(min, max, tiles);
    lemma_nearest_exact(tiles);
    let v = units(difference(max, min)) as nat;
    lemma_mul_nonnegative(tiles as int, one as int);
    lemma_rounded_in_units(v, tiles as nat);
    lemma_units_bound(magnitude(difference(max, min)), 1032);
    lemma_mul_inequality(1, tiles as int, pow2(1083) as int);
    lemma_rounded_bound(v, tiles as nat, 1032);
    lemma_signed_units(false, rounded(v, tiles as nat));
    lemma_rounding_error(v, tiles as nat);
}

/// The distance of an edge from the first one, in units.
spec fn offset(min: u64, max: u64, tiles: u64, index: u64) -> int {
    units(product(step(min, max, tiles as nat), nearest(index as nat)))
}

/// The distance of an edge from the first one is rounded up by little.
proof fn lemma_offset(min: u64, max: u64, tiles: u64, index: u64)
    requires
        is_axis(min, max),
        index < tiles <= MAX_GRID,
    ensures
        magnitude(product(step(min, max, tiles as nat), nearest(index as nat))) <= 1096 * HIDDEN,
        0 <= units(step(min, max, tiles as nat)) * index,
        offset(min, max, tiles, index) == units_of(
            rounded((units(step(min, max, tiles as nat)) * index) as nat, 1),
        ),
        offset(min, max, tiles, index) * (2 * HIDDEN) <= (units(step(min, max, tiles as nat))
            * index) * (2 * HIDDEN + 1),
{
    let one = pow2(ONE_SHIFT as nat);
    lemma_pow2_pos(ONE_SHIFT as nat);
    lemma_width(min, max, tiles);
    lemma_nearest_exact(index);
    let width = step(min, max, tiles as nat);
    let t = units(width) as nat;
    lemma_mul_nonnegative(t as int, index as int);
    lemma_mul_nonnegative(index as int, one as int);
    let n = (t * index) as nat;
    lemma_rounded_in_units(n, 1);
    lemma_mul_is_associative(t as int, index as int, one as int);
    lemma_units_bound(magnitude(width), 1032);
    lemma2_to64();
    lemma_pow2_adds(1083, 20);
    lemma_mul_upper_bound(t as int, pow2(1083) as int, index as int, pow2(20) as int);
    lemma_rounded_bound(n, 1, 1052);
    assert(product(width, nearest(index as nat)) == signed(false, rounded(n, 1)));
    lemma_signed_units(false, rounded(n, 1));
    lemma_rounding_error(n, 1);
}

/// Edges with a greater number are farther from the first one.
proof fn lemma_offset_ordered(min: u64, max: u64, tiles: u64, low: u64, high: u64)
    requires
        is_axis(min, max),
        low <= high < tiles <= MAX_GRID,
    ensures
        0 <= offset(min, max, tiles, low) <= offset(min, max, tiles, high),
{
    lemma_width(min, max, tiles);
    lemma_offset(min, max, tiles, low);
    lemma_offset(min, max, tiles, high);
    let t = units(step(min, max, tiles as nat));
    lemma_mul_inequality(low as int, high as int, t);
    lemma_mul_is_commutative(low as int, t);
    lemma_mul_is_commutative(high as int, t);
    lemma_rounded_ordered((t * low) as nat, 1, (t * high) as nat, 1);
    lemma_units_ordered(rounded((t * high) as nat, 1), rounded((t * low) as nat, 1));
}

/// No edge but the last is farther from the first one than the extent, unless the extent is
/// tiny; then it is still close to it.
proof fn lemma_offset_bound(min: u64, max: u64, tiles: u64, index: u64)
    requires
        is_axis(min, max),
        index < tiles <= MAX_GRID,
    ensures
        units(max) - units(min) >= LEAST_EXTENT ==> offset(min, max, tiles, index) <= units(max)
            - units(min),
        units(max) - units(min) < LEAST_EXTENT ==> offset(min, max, tiles, index) <= pow2(62),
{
    lemma_span(min, max);
    lemma_width(min, max, tiles);
    lemma_offset(min, max, tiles, index);
    lemma2_to64_rest();
    let x = units(max) - units(min);
    let v = units(difference(max, min));
    let t = units(step(min, max, tiles as nat));
    let p = offset(min, max, tiles, index);
    let q = t * tiles;
    assert(t * index <= q - t) by (nonlinear_arith)
        requires
            index <= tiles - 1,
            t >= 0,
            q == t * tiles,
    ;
    assert(q <= t * 0x10_0000 && q >= t) by (nonlinear_arith)
        requires
            1 <= tiles <= 0x10_0000,
            t >= 0,
            q == t * tiles,
    ;
    lemma_offset_arithmetic(x, v, t, q, p, tiles as int, t * index);
}

proof fn lemma_offset_arithmetic(x: int, v: int, t: int, q: int, p: int, n: int, ti: int)
    requires
        0 < x,
        0 <= v,
        0 <= t <= q <= t * 0x10_0000,
        1 <= n <= 0x10_0000,
        v * 0x20_0000_0000_0000 <= x * 0x20_0000_0000_0001,
        q * 0x40_0000_0000_0000 <= v * 0x40_0000_0000_0002 + n * 0x20_0000_0000_0000,
        0 <= ti <= q - t,
        p * 0x20_0000_0000_0000 <= ti * 0x20_0000_0000_0001,
    ensures
        x >= 0x200_0000_0000 ==> p <= x,
        x < 0x200_0000_0000 ==> p <= 0x4000_0000_0000_0000,
{
}

/// What an edge but the last stands for.
proof fn lemma_edge(min: u64, max: u64, tiles: u64, index: u64)
    requires
        is_axis(min, max),
        index < tiles <= MAX_GRID,
    ensures
        units(edge(min, max, tiles as nat, index as nat)) == rounded_units(
            units(min) + offset(min, max, tiles, index),
        ),
{
    reveal(edge);
    lemma_offset(min, max, tiles, index);
    lemma_sum_units(min, product(step(min, max, tiles as nat), nearest(index as nat)));
}

/// A double is its own rounding.
proof fn lemma_own_rounding(bits: u64)
    ensures
        rounded_units(units(bits)) == units(bits),
{
    lemma_rounded_double(magnitude(bits));
    if units_of(magnitude(bits)) == 0 && is_negative(bits) {
        assert(units(bits) == 0);
    }
}

/// Rounding keeps the order of integers.
proof fn lemma_rounded_units_ordered(low: int, high: int)
    requires
        low <= high,
    ensures
        rounded_units(low) <= rounded_units(high),
{
    let below = rounded(distance(low), 1);
    let above = rounded(distance(high), 1);
    if distance(low) <= distance(high) {
        lemma_rounded_ordered(distance(low), 1, distance(high), 1);
    } else {
        lemma_rounded_ordered(distance(high), 1, distance(low), 1);
    }
    lemma_units_ordered(below, above);
}

/// The first edge is the lower end of the axis, and no other edge is below it.
proof fn lemma_edge_above_start(min: u64, max: u64, tiles: u64, index: u64)
    requires
        is_axis(min, max),
        index <= tiles <= MAX_GRID,
        tiles > 0,
    ensures
        units(edge(min, max, tiles as nat, 0)) == units(min),
        units(edge(min, max, tiles as nat, index as nat)) >= units(min),
        edge(min, max, tiles as nat, tiles as nat) == max,
{
    lemma_edge(min, max, tiles, 0);
    lemma_offset(min, max, tiles, 0);
    lemma_zero_offset(min, max, tiles);
    lemma_own_rounding(min);
    if index < tiles {
        lemma_edge(min, max, tiles, index);
        lemma_offset_ordered(min, max, tiles, 0, index);
        lemma_rounded_units_ordered(units(min), units(min) + offset(min, max, tiles, index));
    }
    reveal(edge);
}

proof fn lemma_zero_offset(min: u64, max: u64, tiles: u64)
    requires
        is_axis(min, max),
        0 < tiles <= MAX_GRID,
    ensures
        offset(min, max, tiles, 0) == 0,
{
    lemma_offset(min, max, tiles, 0);
    let t = units(step(min, max, tiles as nat));
    assert(t * 0 == 0);
    lemma_mul_by_zero_is_zero(pow2(shift_of(0)) as int);
    assert(significand_of(0) == 0);
    lemma_rounded_double(0);
}

/// Edges are in order, but for the last one.
proof fn lemma_edges_ordered(min: u64, max: u64, tiles: u64, low: u64, high: u64)
    requires
        is_axis(min, max),
        low <= high < tiles <= MAX_GRID,
    ensures
        units(edge(min, max, tiles as nat, low as nat)) <= units(
            edge(min, max, tiles as nat, high as nat),
        ),
{
    lemma_edge(min, max, tiles, low);
    lemma_edge(min, max, tiles, high);
    lemma_offset_ordered(min, max, tiles, low, high);
    lemma_rounded_units_ordered(
        units(min) + offset(min, max, tiles, low),
        units(min) + offset(min, max, tiles, high),
    );
}

/// No edge passes the upper end of an axis that is not tiny.
proof fn lemma_edge_below_end(min: u64, max: u64, tiles: u64, index: u64)
    requires
        is_axis(min, max),
        index <= tiles <= MAX_GRID,
        tiles > 0,
        units(max) - units(min) >= LEAST_EXTENT,
    ensures
        units(edge(min, max, tiles as nat, index as nat)) <= units(max),
{
    if index < tiles {
        lemma_edge(min, max, tiles, index);
        lemma_offset_bound(min, max, tiles, index);
        lemma_rounded_units_ordered(units(min) + offset(min, max, tiles, index), units(max));
        lemma_own_rounding(max);
    }
    reveal(edge);
}

/// The units of a double that is at least one half are a multiple of a large power of two.
proof fn lemma_coarse(mag: nat) -> (k: nat)
    requires
        mag >= 1022 * HIDDEN,
    ensures
        units_of(mag) == k * pow2(1021),
{
    let s = shift_of(mag);
    lemma_div_is_ordered((1022 * HIDDEN) as int, mag as int, HIDDEN as int);
    assert((1022 * HIDDEN) as int / HIDDEN as int == 1022);
    let w = (s - 1021) as nat;
    lemma_pow2_adds(w, 1021);
    lemma_mul_is_associative(significand_of(mag) as int, pow2(w) as int, pow2(1021) as int);
    significand_of(mag) * pow2(w)
}

/// The lower end of a tiny axis is under one half.
proof fn lemma_tiny_axis(min: u64, max: u64)
    requires
        is_axis(min, max),
        units(max) - units(min) < LEAST_EXTENT,
    ensures
        units(min) <= pow2(1073),
{
    if units(min) > pow2(1073) {
        lemma_power_magnitude(1022);
        lemma_units_ordered((1022 * HIDDEN) as nat, magnitude(min));
        lemma_units_ordered(magnitude(min), magnitude(max));
        lemma_pow2_pos(1073);
        let a = lemma_coarse(magnitude(min));
        let b = lemma_coarse(magnitude(max));
        let p = pow2(1021);
        assert(b * p - a * p >= p) by (nonlinear_arith)
            requires
                b * p > a * p,
                p >= 0,
        ;
        lemma2_to64();
        lemma_pow2_strictly_increases(41, 1021);
        lemma2_to64_rest();
        assert(pow2(41) == LEAST_EXTENT);
    }
}

/// Every edge lies within limits of at least one in which both ends lie.
proof fn lemma_edge_in_range(min: u64, max: u64, tiles: u64, index: u64, limit: u64)
    requires
        is_axis(min, max),
        index <= tiles <= MAX_GRID,
        tiles > 0,
        1023 * HIDDEN <= limit <= 1031 * HIDDEN,
        magnitude(min) <= limit,
        magnitude(max) <= limit,
    ensures
        magnitude(edge(min, max, tiles as nat, index as nat)) <= limit,
{
    let at = edge(min, max, tiles as nat, index as nat);
    lemma_edge_above_start(min, max, tiles, index);
    lemma_units_ordered(limit as nat, magnitude(min));
    lemma_units_ordered(limit as nat, magnitude(max));
    assert(magnitude(limit) == limit);
    assert(units(at) <= units_of(limit as nat)) by {
        if index == tiles {
        } else if units(max) - units(min) >= LEAST_EXTENT {
            lemma_edge_below_end(min, max, tiles, index);
        } else {
            lemma_tiny_axis(min, max);
            lemma_offset_bound(min, max, tiles, index);
            lemma_edge(min, max, tiles, index);
            lemma_power_magnitude(1023);
            lemma_units_ordered(limit as nat, (1023 * HIDDEN) as nat);
            lemma_pow2_unfold(1074);
            lemma_pow2_strictly_increases(62, 1073);
            let exact = units(min) + offset(min, max, tiles, index);
            lemma_rounded_units_ordered(exact, units(limit));
            lemma_own_rounding(limit);
        }
    }
    lemma_units_ordered(limit as nat, magnitude(at));
}

/// The part of an axis with the given number has an extent.
spec fn is_part(min: u64, max: u64, tiles: nat, index: nat) -> bool {
    units(edge(min, max, tiles, index)) < units(edge(min, max, tiles, index + 1))
}

/// An edge is not above a place on an axis, or is below it where the place is the upper end.
spec fn is_low(min: u64, max: u64, tiles: u64, index: u64, place: int) -> bool {
    let at = units(edge(min, max, tiles as nat, index as nat));
    if place < units(max) {
        at <= place
    } else {
        at < units(max)
    }
}

/// The number of a part with an extent in which a place lies, from a part on that begins
/// below it.
proof fn lemma_part_from(min: u64, max: u64, tiles: u64, index: u64, place: int) -> (found: u64)
    requires
        is_axis(min, max),
        index < tiles <= MAX_GRID,
        units(min) <= place <= units(max),
        is_low(min, max, tiles, index, place),
    ensures
        index <= found < tiles,
        is_part(min, max, tiles as nat, found as nat),
        units(edge(min, max, tiles as nat, found as nat)) <= place <= units(
            edge(min, max, tiles as nat, (found + 1) as nat),
        ),
    decreases tiles - index,
{
    let next = (index + 1) as u64;
    lemma_edge_above_start(min, max, tiles, tiles);
    if next < tiles && is_low(min, max, tiles, next, place) {
        lemma_part_from(min, max, tiles, next, place)
    } else {
        index
    }
}

/// The number of a part with an extent in which a place on an axis lies.
proof fn lemma_part_of(min: u64, max: u64, tiles: u64, place: int) -> (found: u64)
    requires
        is_axis(min, max),
        0 < tiles <= MAX_GRID,
        units(min) <= place <= units(max),
    ensures
        found < tiles,
        is_part(min, max, tiles as nat, found as nat),
        units(edge(min, max, tiles as nat, found as nat)) <= place <= units(
            edge(min, max, tiles as nat, (found + 1) as nat),
        ),
{
    lemma_edge_above_start(min, max, tiles, 0);
    lemma_part_from(min, max, tiles, 0, place)
}

/// The sides of a bounding box are axes.
proof fn lemma_sides(bbox: LLBBox)
    requires
        bbox.well_formed(),
    ensures
        is_axis(bbox.min.lat, bbox.max.lat),
        is_axis(bbox.min.lng, bbox.max.lng),
        magnitude(bbox.min.lat) <= NINETY,
        magnitude(bbox.max.lat) <= NINETY,
        magnitude(bbox.min.lng) <= ONE_EIGHTY,
        magnitude(bbox.max.lng) <= ONE_EIGHTY,
{
    reveal(LLBBox::well_formed);
}

/// A tile is a bounding box if and only if both of its sides have an extent.
proof fn lemma_tile_kept(bbox: LLBBox, rows: u64, columns: u64, row: u64, column: u64)
    requires
        bbox.well_formed(),
        row < rows <= MAX_GRID,
        column < columns <= MAX_GRID,
    ensures
        tile(bbox, rows as nat, columns as nat, row as nat, column as nat).well_formed() <==> (
        is_part(bbox.min.lat, bbox.max.lat, rows as nat, row as nat) && is_part(
            bbox.min.lng,
            bbox.max.lng,
            columns as nat,
            column as nat,
        )),
{
    reveal(LLBBox::well_formed);
    reveal(tile);
    lemma_sides(bbox);
    lemma_edge_in_range(bbox.min.lat, bbox.max.lat, rows, row, NINETY);
    lemma_edge_in_range(bbox.min.lat, bbox.max.lat, rows, (row + 1) as u64, NINETY);
    lemma_edge_in_range(bbox.min.lng, bbox.max.lng, columns, column, ONE_EIGHTY);
    lemma_edge_in_range(bbox.min.lng, bbox.max.lng, columns, (column + 1) as u64, ONE_EIGHTY);
}

/// The tile with the given number, row by row.
spec fn tile_number(bbox: LLBBox, rows: nat, columns: nat, k: nat) -> LLBBox {
    tile(bbox, rows, columns, k / columns, k % columns)
}

/// A tile that is a bounding box is among the tiles.
proof fn lemma_tile_found(bbox: LLBBox, rows: nat, columns: nat, count: nat, k: nat) -> (i: int)
    requires
        columns > 0,
        k < count,
        tile_number(bbox, rows, columns, k).well_formed(),
    ensures
        0 <= i < first_tiles(bbox, rows, columns, count).len(),
        first_tiles(bbox, rows, columns, count)[i] == tile_number(bbox, rows, columns, k),
    decreases count,
{
    let last = (count - 1) as nat;
    let before = first_tiles(bbox, rows, columns, last);
    if k == last {
        before.len() as int
    } else {
        let i = lemma_tile_found(bbox, rows, columns, last, k);
        assert(first_tiles(bbox, rows, columns, count)[i] == before[i]);
        i
    }
}

/// The number of a row and a column of a grid.
proof fn lemma_number(rows: u64, columns: u64, row: u64, column: u64) -> (k: nat)
    requires
        row < rows,
        column < columns,
    ensures
        k < rows * columns,
        k / (columns as nat) == row,
        k % (columns as nat) == column,
{
    let k = (row * columns + column) as nat;
    assert(row * columns + column < rows * columns && row * columns >= 0) by (nonlinear_arith)
        requires
            0 <= row <= rows - 1,
            0 <= column < columns,
    ;
    lemma_fundamental_div_mod_converse(k as int, columns as int, row as int, column as int);
    k
}

/// Every point of a bounding box lies in one of the tiles that it is cut into.
pub proof fn law_grid_covers(bbox: LLBBox, lat_tiles: u64, lng_tiles: u64, lat: u64, lng: u64)
    requires
        bbox.well_formed(),
        lat_tiles <= MAX_GRID,
        lng_tiles <= MAX_GRID,
        bbox.holds(lat, lng),
    ensures
        exists|i: int|
            0 <= i < grid(bbox, lat_tiles as nat, lng_tiles as nat).len() && (
            #[trigger] grid(bbox, lat_tiles as nat, lng_tiles as nat)[i]).holds(lat, lng),
{
    reveal(grid);
    reveal(tile);
    let rows = at_least_one(lat_tiles as nat) as u64;
    let columns = at_least_one(lng_tiles as nat) as u64;
    lemma_sides(bbox);
    let row = lemma_part_of(bbox.min.lat, bbox.max.lat, rows, units(lat));
    let column = lemma_part_of(bbox.min.lng, bbox.max.lng, columns, units(lng));
    lemma_tile_kept(bbox, rows, columns, row, column);
    let k = lemma_number(rows, columns, row, column);
    let i = lemma_tile_found(
        bbox,
        rows as nat,
        columns as nat,
        (rows * columns) as nat,
        k,
    );
    assert(grid(bbox, lat_tiles as nat, lng_tiles as nat)[i].holds(lat, lng));
}

/// An axis is cut into at most as many initial tiles as is allowed.
proof fn lemma_tile_count(span: u64)
    ensures
        1 <= tile_count(span) <= MAX_TILES_PER_AXIS,
{
    reveal(tile_count);
}

/// Every point of a bounding box lies in one of its initial tiles.
pub proof fn law_initial_tiles_cover(bbox: LLBBox, lat: u64, lng: u64)
    requires
        bbox.well_formed(),
        bbox.holds(lat, lng),
    ensures
        exists|i: int|
            0 <= i < initial_tiles(bbox).len() && (#[trigger] initial_tiles(bbox)[i]).holds(
                lat,
                lng,
            ),
{
    reveal(initial_tiles);
    let lat_span = difference(bbox.max.lat, bbox.min.lat);
    let lng_span = difference(bbox.max.lng, bbox.min.lng);
    lemma_tile_count(lat_span);
    lemma_tile_count(lng_span);
    let lat_tiles = tile_count(lat_span);
    let lng_tiles = tile_count(lng_span);
    law_grid_covers(bbox, lat_tiles as u64, lng_tiles as u64, lat, lng);
    let tiles = grid(bbox, lat_tiles, lng_tiles);
    let i = choose|i: int| 0 <= i < tiles.len() && (#[trigger] tiles[i]).holds(lat, lng);
    assert(initial_tiles(bbox)[i].holds(lat, lng));
}

/// Two tiles share at most an edge: one of them ends, to the north or to the east, where the
/// other begins or before.
pub open spec fn is_apart(first: LLBBox, second: LLBBox) -> bool {
    ||| units(first.max.lat) <= units(second.min.lat)
    ||| units(first.max.lng) <= units(second.min.lng)
    ||| units(second.max.lng) <= units(first.min.lng)
}

/// A tile is one of those with the first `count` numbers.
spec fn is_numbered(bbox: LLBBox, rows: nat, columns: nat, count: nat, some: LLBBox) -> bool {
    exists|k: nat| k < count && #[trigger] tile_number(bbox, rows, columns, k) == some
}

/// Each tile of a grid is the one with some number, and no two of them overlap.
proof fn lemma_tiles_apart(bbox: LLBBox, rows: u64, columns: u64, count: nat)
    requires
        bbox.well_formed(),
        0 < rows <= MAX_GRID,
        0 < columns <= MAX_GRID,
        count <= rows * columns,
    ensures
        forall|i: int|
            0 <= i < first_tiles(bbox, rows as nat, columns as nat, count).len() ==> is_numbered(
                bbox,
                rows as nat,
                columns as nat,
                count,
                #[trigger] first_tiles(bbox, rows as nat, columns as nat, count)[i],
            ),
        forall|i: int, j: int|
            0 <= i < j < first_tiles(bbox, rows as nat, columns as nat, count).len() ==> is_apart(
                #[trigger] first_tiles(bbox, rows as nat, columns as nat, count)[i],
                #[trigger] first_tiles(bbox, rows as nat, columns as nat, count)[j],
            ),
    decreases count,
{
    if count > 0 {
        let r = rows as nat;
        let c = columns as nat;
        let last = (count - 1) as nat;
        lemma_tiles_apart(bbox, rows, columns, last);
        let before = first_tiles(bbox, r, c, last);
        let all = first_tiles(bbox, r, c, count);
        assert(all == before || all == before.push(tile_number(bbox, r, c, last)));
        assert forall|i: int| 0 <= i < all.len() implies is_numbered(
            bbox,
            r,
            c,
            count,
            #[trigger] all[i],
        ) by {
            if i < before.len() {
                assert(all[i] == before[i]);
                assert(is_numbered(bbox, r, c, last, before[i]));
                let k = choose|k: nat| k < last && #[trigger] tile_number(bbox, r, c, k) == before[i];
                assert(k < count && tile_number(bbox, r, c, k) == all[i]);
            } else {
                assert(tile_number(bbox, r, c, last) == all[i]);
            }
        }
        assert forall|i: int, j: int| 0 <= i < j < all.len() implies is_apart(
            #[trigger] all[i],
            #[trigger] all[j],
        ) by {
            assert(all[i] == before[i]);
            if j < before.len() {
                assert(all[j] == before[j]);
            } else {
                assert(is_numbered(bbox, r, c, last, before[i]));
                let k = choose|k: nat| k < last && #[trigger] tile_number(bbox, r, c, k) == before[i];
                lemma_numbers_apart(bbox, rows, columns, k, last);
            }
        }
    }
}

/// Tiles with different numbers do not overlap.
proof fn lemma_numbers_apart(bbox: LLBBox, rows: u64, columns: u64, k: nat, l: nat)
    requires
        bbox.well_formed(),
        0 < rows <= MAX_GRID,
        0 < columns <= MAX_GRID,
        k < l < rows * columns,
    ensures
        is_apart(
            tile_number(bbox, rows as nat, columns as nat, k),
            tile_number(bbox, rows as nat, columns as nat, l),
        ),
{
    reveal(tile);
    lemma_sides(bbox);
    let (row, column) = ((k / (columns as nat)) as u64, (k % (columns as nat)) as u64);
    let (upper, other) = ((l / (columns as nat)) as u64, (l % (columns as nat)) as u64);
    lemma_div_is_ordered(k as int, l as int, columns as int);
    lemma_fundamental_div_mod(k as int, columns as int);
    lemma_fundamental_div_mod(l as int, columns as int);
    lemma_mul_is_commutative(rows as int, columns as int);
    lemma_multiply_divide_lt(l as int, columns as int, rows as int);
    lemma_div_pos_is_pos(k as int, columns as int);
    if row < upper {
        lemma_edges_ordered(bbox.min.lat, bbox.max.lat, rows, (row + 1) as u64, upper);
    } else {
        lemma_edges_ordered(bbox.min.lng, bbox.max.lng, columns, (column + 1) as u64, other);
    }
}

/// No two tiles of a grid overlap.
pub proof fn law_tiles_apart(bbox: LLBBox, lat_tiles: u64, lng_tiles: u64, i: int, j: int)
    requires
        bbox.well_formed(),
        lat_tiles <= MAX_GRID,
        lng_tiles <= MAX_GRID,
        0 <= i < j < grid(bbox, lat_tiles as nat, lng_tiles as nat).len(),
    ensures
        is_apart(
            grid(bbox, lat_tiles as nat, lng_tiles as nat)[i],
            grid(bbox, lat_tiles as nat, lng_tiles as nat)[j],
        ),
{
    reveal(grid);
    let rows = at_least_one(lat_tiles as nat) as u64;
    let columns = at_least_one(lng_tiles as nat) as u64;
    lemma_tiles_apart(bbox, rows, columns, (rows * columns) as nat);
}

/// The sides of a box are not tiny.
pub open spec fn has_extent(bbox: LLBBox) -> bool {
    &&& units(bbox.max.lat) - units(bbox.min.lat) >= LEAST_EXTENT
    &&& units(bbox.max.lng) - units(bbox.min.lng) >= LEAST_EXTENT
}

/// No tile of a grid reaches beyond the bounding box, unless that is tiny.
pub proof fn law_tiles_inside(
    bbox: LLBBox,
    lat_tiles: u64,
    lng_tiles: u64,
    i: int,
    lat: u64,
    lng: u64,
)
    requires
        bbox.well_formed(),
        has_extent(bbox),
        lat_tiles <= MAX_GRID,
        lng_tiles <= MAX_GRID,
        0 <= i < grid(bbox, lat_tiles as nat, lng_tiles as nat).len(),
        grid(bbox, lat_tiles as nat, lng_tiles as nat)[i].holds(lat, lng),
    ensures
        bbox.holds(lat, lng),
{
    reveal(grid);
    reveal(tile);
    let rows = at_least_one(lat_tiles as nat) as u64;
    let columns = at_least_one(lng_tiles as nat) as u64;
    let count = (rows * columns) as nat;
    lemma_tiles_apart(bbox, rows, columns, count);
    let tiles = first_tiles(bbox, rows as nat, columns as nat, count);
    assert(is_numbered(bbox, rows as nat, columns as nat, count, tiles[i]));
    let k = choose|k: nat|
        k < count && #[trigger] tile_number(bbox, rows as nat, columns as nat, k) == tiles[i];
    lemma_sides(bbox);
    let row = (k / (columns as nat)) as u64;
    let column = (k % (columns as nat)) as u64;
    lemma_mul_is_commutative(rows as int, columns as int);
    lemma_multiply_divide_lt(k as int, columns as int, rows as int);
    lemma_div_pos_is_pos(k as int, columns as int);
    lemma_fundamental_div_mod(k as int, columns as int);
    lemma_edge_above_start(bbox.min.lat, bbox.max.lat, rows, row);
    lemma_edge_above_start(bbox.min.lng, bbox.max.lng, columns, column);
    lemma_edge_below_end(bbox.min.lat, bbox.max.lat, rows, (row + 1) as u64);
    lemma_edge_below_end(bbox.min.lng, bbox.max.lng, columns, (column + 1) as u64);
}

/// The first tile is the first of those that are bounding boxes.
proof fn lemma_first_tile(bbox: LLBBox, rows: nat, columns: nat, count: nat, k: nat)
    requires
        columns > 0,
        k < count,
        tile_number(bbox, rows, columns, k).well_formed(),
        forall|l: nat| l < k ==> !(#[trigger] tile_number(bbox, rows, columns, l)).well_formed(),
    ensures
        first_tiles(bbox, rows, columns, count).len() > 0,
        first_tiles(bbox, rows, columns, count)[0] == tile_number(bbox, rows, columns, k),
    decreases count,
{
    let last = (count - 1) as nat;
    if k < last {
        lemma_first_tile(bbox, rows, columns, last, k);
    } else {
        lemma_no_tiles(bbox, rows, columns, last);
    }
}

proof fn lemma_no_tiles(bbox: LLBBox, rows: nat, columns: nat, count: nat)
    requires
        columns > 0,
        forall|l: nat| l < count ==> !(#[trigger] tile_number(bbox, rows, columns, l)).well_formed(),
    ensures
        first_tiles(bbox, rows, columns, count).len() == 0,
    decreases count,
{
    if count > 0 {
        let last = (count - 1) as nat;
        lemma_no_tiles(bbox, rows, columns, last);
        assert(!tile_number(bbox, rows, columns, last).well_formed());
    }
}

/// The last tile is the last of those that are bounding boxes.
proof fn lemma_last_tile(bbox: LLBBox, rows: nat, columns: nat, count: nat, k: nat)
    requires
        columns > 0,
        k < count,
        tile_number(bbox, rows, columns, k).well_formed(),
        forall|l: nat|
            k < l < count ==> !(#[trigger] tile_number(bbox, rows, columns, l)).well_formed(),
    ensures
        first_tiles(bbox, rows, columns, count).len() > 0,
        first_tiles(bbox, rows, columns, count).last() == tile_number(bbox, rows, columns, k),
    decreases count,
{
    let last = (count - 1) as nat;
    if k < last {
        assert(!tile_number(bbox, rows, columns, last).well_formed());
        lemma_last_tile(bbox, rows, columns, last, k);
    }
}

/// The number of the first part of an axis that has an extent. It begins where the axis
/// begins.
proof fn lemma_first_part(min: u64, max: u64, tiles: u64) -> (found: u64)
    requires
        is_axis(min, max),
        0 < tiles <= MAX_GRID,
    ensures
        found < tiles,
        is_part(min, max, tiles as nat, found as nat),
        forall|i: nat| i < found ==> !#[trigger] is_part(min, max, tiles as nat, i),
        units(edge(min, max, tiles as nat, found as nat)) == units(min),
{
    lemma_edge_above_start(min, max, tiles, 0);
    let some = lemma_part_of(min, max, tiles, units(min));
    lemma_first_part_from(min, max, tiles, 0, some)
}

proof fn lemma_first_part_from(min: u64, max: u64, tiles: u64, index: u64, some: u64) -> (found: u64)
    requires
        is_axis(min, max),
        index <= some < tiles <= MAX_GRID,
        is_part(min, max, tiles as nat, some as nat),
        forall|i: nat| i < index ==> !#[trigger] is_part(min, max, tiles as nat, i),
        units(edge(min, max, tiles as nat, index as nat)) == units(min),
    ensures
        found < tiles,
        is_part(min, max, tiles as nat, found as nat),
        forall|i: nat| i < found ==> !#[trigger] is_part(min, max, tiles as nat, i),
        units(edge(min, max, tiles as nat, found as nat)) == units(min),
    decreases tiles - index,
{
    if is_part(min, max, tiles as nat, index as nat) {
        index
    } else {
        let next = (index + 1) as u64;
        lemma_edge_above_start(min, max, tiles, next);
        lemma_first_part_from(min, max, tiles, next, some)
    }
}

/// The number of the last part of an axis that has an extent. It ends where the axis ends,
/// unless that is tiny.
proof fn lemma_last_part(min: u64, max: u64, tiles: u64) -> (found: u64)
    requires
        is_axis(min, max),
        0 < tiles <= MAX_GRID,
        units(max) - units(min) >= LEAST_EXTENT,
    ensures
        found < tiles,
        is_part(min, max, tiles as nat, found as nat),
        forall|i: nat| found < i < tiles ==> !#[trigger] is_part(min, max, tiles as nat, i),
        units(edge(min, max, tiles as nat, (found + 1) as nat)) == units(max),
{
    lemma_edge_above_start(min, max, tiles, tiles);
    let some = lemma_part_of(min, max, tiles, units(max));
    lemma_last_part_up_to(min, max, tiles, tiles, some)
}

proof fn lemma_last_part_up_to(min: u64, max: u64, tiles: u64, end: u64, some: u64) -> (found: u64)
    requires
        is_axis(min, max),
        some < end <= tiles <= MAX_GRID,
        units(max) - units(min) >= LEAST_EXTENT,
        is_part(min, max, tiles as nat, some as nat),
        forall|i: nat| end <= i < tiles ==> !#[trigger] is_part(min, max, tiles as nat, i),
        units(edge(min, max, tiles as nat, end as nat)) == units(max),
    ensures
        found < tiles,
        is_part(min, max, tiles as nat, found as nat),
        forall|i: nat| found < i < tiles ==> !#[trigger] is_part(min, max, tiles as nat, i),
        units(edge(min, max, tiles as nat, (found + 1) as nat)) == units(max),
    decreases end,
{
    let last = (end - 1) as u64;
    if is_part(min, max, tiles as nat, last as nat) {
        last
    } else {
        lemma_edge_below_end(min, max, tiles, last);
        lemma_last_part_up_to(min, max, tiles, last, some)
    }
}

/// The first tile of a grid begins at the south-west corner of the bounding box.
pub proof fn law_first_tile_at_corner(bbox: LLBBox, lat_tiles: u64, lng_tiles: u64)
    requires
        bbox.well_formed(),
        lat_tiles <= MAX_GRID,
        lng_tiles <= MAX_GRID,
    ensures
        grid(bbox, lat_tiles as nat, lng_tiles as nat).len() > 0,
        units(grid(bbox, lat_tiles as nat, lng_tiles as nat).first().min.lat) == units(
            bbox.min.lat,
        ),
        units(grid(bbox, lat_tiles as nat, lng_tiles as nat).first().min.lng) == units(
            bbox.min.lng,
        ),
{
    reveal(grid);
    reveal(tile);
    let rows = at_least_one(lat_tiles as nat) as u64;
    let columns = at_least_one(lng_tiles as nat) as u64;
    lemma_sides(bbox);
    let row = lemma_first_part(bbox.min.lat, bbox.max.lat, rows);
    let column = lemma_first_part(bbox.min.lng, bbox.max.lng, columns);
    let k = lemma_number(rows, columns, row, column);
    lemma_tile_kept(bbox, rows, columns, row, column);
    assert forall|l: nat| l < k implies !(#[trigger] tile_number(
        bbox,
        rows as nat,
        columns as nat,
        l,
    )).well_formed() by {
        let (r, c) = ((l / (columns as nat)) as u64, (l % (columns as nat)) as u64);
        lemma_div_is_ordered(l as int, k as int, columns as int);
        lemma_fundamental_div_mod(l as int, columns as int);
        lemma_fundamental_div_mod(k as int, columns as int);
        lemma_div_pos_is_pos(l as int, columns as int);
        lemma_tile_kept(bbox, rows, columns, r, c);
        if r < row {
            assert(!is_part(bbox.min.lat, bbox.max.lat, rows as nat, r as nat));
        } else {
            assert(!is_part(bbox.min.lng, bbox.max.lng, columns as nat, c as nat));
        }
    }
    lemma_first_tile(bbox, rows as nat, columns as nat, (rows * columns) as nat, k);
}

/// The last tile of a grid ends at the north-east corner of the bounding box, unless that is
/// tiny.
pub proof fn law_last_tile_at_corner(bbox: LLBBox, lat_tiles: u64, lng_tiles: u64)
    requires
        bbox.well_formed(),
        has_extent(bbox),
        lat_tiles <= MAX_GRID,
        lng_tiles <= MAX_GRID,
    ensures
        grid(bbox, lat_tiles as nat, lng_tiles as nat).len() > 0,
        units(grid(bbox, lat_tiles as nat, lng_tiles as nat).last().max.lat) == units(bbox.max.lat),
        units(grid(bbox, lat_tiles as nat, lng_tiles as nat).last().max.lng) == units(bbox.max.lng),
{
    reveal(grid);
    reveal(tile);
    let rows = at_least_one(lat_tiles as nat) as u64;
    let columns = at_least_one(lng_tiles as nat) as u64;
    lemma_sides(bbox);
    let row = lemma_last_part(bbox.min.lat, bbox.max.lat, rows);
    let column = lemma_last_part(bbox.min.lng, bbox.max.lng, columns);
    let k = lemma_number(rows, columns, row, column);
    let count = (rows * columns) as nat;
    lemma_tile_kept(bbox, rows, columns, row, column);
    assert forall|l: nat| k < l < count implies !(#[trigger] tile_number(
        bbox,
        rows as nat,
        columns as nat,
        l,
    )).well_formed() by {
        let (r, c) = ((l / (columns as nat)) as u64, (l % (columns as nat)) as u64);
        lemma_div_is_ordered(k as int, l as int, columns as int);
        lemma_fundamental_div_mod(l as int, columns as int);
        lemma_fundamental_div_mod(k as int, columns as int);
        lemma_mul_is_commutative(rows as int, columns as int);
        lemma_multiply_divide_lt(l as int, columns as int, rows as int);
        lemma_tile_kept(bbox, rows, columns, r, c);
        if r > row {
            assert(!is_part(bbox.min.lat, bbox.max.lat, rows as nat, r as nat));
        } else {
            assert(!is_part(bbox.min.lng, bbox.max.lng, columns as nat, c as nat));
        }
    }
    lemma_last_tile(bbox, rows as nat, columns as nat, count, k);
}

/// Every cell of some rows and columns is a bounding box.
pub open spec fn cells_are_boxes(bbox: LLBBox, rows: nat, columns: nat) -> bool {
    forall|row: nat, column: nat|
        row < rows && column < columns ==> (#[trigger] tile(
            bbox,
            rows,
            columns,
            row,
            column,
        )).well_formed()
}

/// Every cell of a grid is a bounding box, so that no tile is left out.
pub open spec fn is_whole(bbox: LLBBox, lat_tiles: nat, lng_tiles: nat) -> bool {
    cells_are_boxes(bbox, at_least_one(lat_tiles), at_least_one(lng_tiles))
}

/// Every part of an axis has an extent.
spec fn all_parts(min: u64, max: u64, tiles: nat) -> bool {
    forall|i: nat| i < tiles ==> #[trigger] is_part(min, max, tiles, i)
}

/// Both axes of a whole grid are cut into parts with an extent.
proof fn lemma_whole_axes(bbox: LLBBox, rows: nat, columns: nat)
    requires
        rows > 0,
        columns > 0,
        cells_are_boxes(bbox, rows, columns),
    ensures
        all_parts(bbox.min.lat, bbox.max.lat, rows),
        all_parts(bbox.min.lng, bbox.max.lng, columns),
{
    reveal(tile);
    reveal(LLBBox::well_formed);
    assert forall|i: nat| i < rows implies #[trigger] is_part(
        bbox.min.lat,
        bbox.max.lat,
        rows,
        i,
    ) by {
        assert(tile(bbox, rows, columns, i, 0).well_formed());
    }
    assert forall|i: nat| i < columns implies #[trigger] is_part(
        bbox.min.lng,
        bbox.max.lng,
        columns,
        i,
    ) by {
        assert(tile(bbox, rows, columns, 0, i).well_formed());
    }
}

/// The first edge of any cut is the lower end of the axis.
proof fn lemma_first_edge(min: u64, max: u64, tiles: nat)
    requires
        tiles > 0,
    ensures
        units(edge(min, max, tiles, 0)) == units(min),
        edge(min, max, tiles, tiles) == max,
{
    reveal(edge);
    let width = step(min, max, tiles);
    let one = pow2(ONE_SHIFT as nat);
    lemma_pow2_pos(ONE_SHIFT as nat);
    lemma_nearest_exact(0);
    lemma_mul_by_zero_is_zero(one as int);
    lemma_mul_by_zero_is_zero(distance(units(width)) as int);
    lemma_mul_by_zero_is_zero(pow2(shift_of(0)) as int);
    assert(significand_of(0) == 0);
    lemma_rounded_double(0);
    lemma_rounded_ordered(0, one, 0, 1);
    lemma_rounded_ordered(0, 1, 0, one);
    let none = product(width, nearest(0));
    lemma_signed_units(is_negative(width) != is_negative(nearest(0)), 0);
    assert(units(none) == 0);
    lemma_rounded_double(magnitude(min));
    lemma_signed_units(is_negative(min), magnitude(min));
    lemma_signed_units(is_negative(min) && is_negative(none), 0);
}

/// The edges of a cut into parts with an extent rise.
proof fn lemma_edges_rise(min: u64, max: u64, tiles: nat, low: nat, high: nat)
    requires
        all_parts(min, max, tiles),
        low <= high <= tiles,
    ensures
        units(edge(min, max, tiles, low)) <= units(edge(min, max, tiles, high)),
    decreases high - low,
{
    if low < high {
        lemma_edges_rise(min, max, tiles, low, (high - 1) as nat);
        assert(is_part(min, max, tiles, (high - 1) as nat));
    }
}

/// The number of a part in which a place lies, up to an edge that is not below it.
proof fn lemma_part_before(min: u64, max: u64, tiles: nat, end: nat, place: int) -> (found: nat)
    requires
        0 < end <= tiles,
        units(edge(min, max, tiles, 0)) <= place <= units(edge(min, max, tiles, end)),
    ensures
        found < end,
        units(edge(min, max, tiles, found)) <= place <= units(edge(min, max, tiles, found + 1)),
    decreases end,
{
    let last = (end - 1) as nat;
    if units(edge(min, max, tiles, last)) <= place {
        last
    } else {
        lemma_part_before(min, max, tiles, last, place)
    }
}

/// A whole grid has all of its tiles, row by row.
proof fn lemma_whole_tiles(bbox: LLBBox, rows: nat, columns: nat, count: nat)
    requires
        rows > 0,
        columns > 0,
        cells_are_boxes(bbox, rows, columns),
        count <= rows * columns,
    ensures
        first_tiles(bbox, rows, columns, count).len() == count,
        forall|k: nat|
            k < count ==> #[trigger] first_tiles(bbox, rows, columns, count)[k as int]
                == tile_number(bbox, rows, columns, k),
    decreases count,
{
    if count > 0 {
        let last = (count - 1) as nat;
        lemma_whole_tiles(bbox, rows, columns, last);
        lemma_cell(rows, columns, last);
        let before = first_tiles(bbox, rows, columns, last);
        let all = first_tiles(bbox, rows, columns, count);
        assert(tile(bbox, rows, columns, last / columns, last % columns).well_formed());
        assert(all == before.push(tile_number(bbox, rows, columns, last)));
        assert forall|k: nat| k < count implies #[trigger] all[k as int] == tile_number(
            bbox,
            rows,
            columns,
            k,
        ) by {
            if k < last {
                assert(all[k as int] == before[k as int]);
            }
        }
    }
}

/// The row and the column of the tile with some number.
proof fn lemma_cell(rows: nat, columns: nat, k: nat)
    requires
        columns > 0,
        k < rows * columns,
    ensures
        k / columns < rows,
        k % columns < columns,
        k == (k / columns) * columns + k % columns,
{
    lemma_mul_is_commutative(rows as int, columns as int);
    lemma_multiply_divide_lt(k as int, columns as int, rows as int);
    lemma_fundamental_div_mod(k as int, columns as int);
    lemma_mul_is_commutative((k / columns) as int, columns as int);
}

/// Every point of a bounding box lies in one of the tiles of a whole grid, however many rows
/// and columns it has.
pub proof fn law_whole_grid_covers(
    bbox: LLBBox,
    lat_tiles: nat,
    lng_tiles: nat,
    lat: u64,
    lng: u64,
)
    requires
        is_whole(bbox, lat_tiles, lng_tiles),
        bbox.holds(lat, lng),
    ensures
        exists|i: int|
            0 <= i < grid(bbox, lat_tiles, lng_tiles).len() && (#[trigger] grid(
                bbox,
                lat_tiles,
                lng_tiles,
            )[i]).holds(lat, lng),
{
    reveal(grid);
    reveal(tile);
    let rows = at_least_one(lat_tiles);
    let columns = at_least_one(lng_tiles);
    lemma_first_edge(bbox.min.lat, bbox.max.lat, rows);
    lemma_first_edge(bbox.min.lng, bbox.max.lng, columns);
    let row = lemma_part_before(bbox.min.lat, bbox.max.lat, rows, rows, units(lat));
    let column = lemma_part_before(bbox.min.lng, bbox.max.lng, columns, columns, units(lng));
    let k = row * columns + column;
    assert(k < rows * columns) by (nonlinear_arith)
        requires
            row + 1 <= rows,
            column < columns,
            k == row * columns + column,
    ;
    lemma_fundamental_div_mod_converse(k as int, columns as int, row as int, column as int);
    lemma_whole_tiles(bbox, rows, columns, rows * columns);
    let tiles = grid(bbox, lat_tiles, lng_tiles);
    assert(tiles[k as int] == tile_number(bbox, rows, columns, k));
    assert(tiles[k as int].holds(lat, lng));
}

/// No two tiles of a whole grid overlap, however many rows and columns it has.
pub proof fn law_whole_grid_apart(bbox: LLBBox, lat_tiles: nat, lng_tiles: nat, i: int, j: int)
    requires
        is_whole(bbox, lat_tiles, lng_tiles),
        0 <= i < j < grid(bbox, lat_tiles, lng_tiles).len(),
    ensures
        is_apart(grid(bbox, lat_tiles, lng_tiles)[i], grid(bbox, lat_tiles, lng_tiles)[j]),
{
    reveal(grid);
    reveal(tile);
    let rows = at_least_one(lat_tiles);
    let columns = at_least_one(lng_tiles);
    let tiles = grid(bbox, lat_tiles, lng_tiles);
    lemma_whole_axes(bbox, rows, columns);
    lemma_whole_tiles(bbox, rows, columns, rows * columns);
    assert(tiles[i as nat as int] == tile_number(bbox, rows, columns, i as nat));
    assert(tiles[j as nat as int] == tile_number(bbox, rows, columns, j as nat));
    lemma_cell(rows, columns, i as nat);
    lemma_cell(rows, columns, j as nat);
    lemma_div_is_ordered(i, j, columns as int);
    let (row, column) = (i as nat / columns, i as nat % columns);
    let (upper, other) = (j as nat / columns, j as nat % columns);
    if row < upper {
        lemma_edges_rise(bbox.min.lat, bbox.max.lat, rows, row + 1, upper);
    } else {
        lemma_edges_rise(bbox.min.lng, bbox.max.lng, columns, column + 1, other);
    }
}

/// No tile of a whole grid reaches beyond the bounding box, however many rows and columns the
/// grid has.
pub proof fn law_whole_grid_inside(
    bbox: LLBBox,
    lat_tiles: nat,
    lng_tiles: nat,
    i: int,
    lat: u64,
    lng: u64,
)
    requires
        is_whole(bbox, lat_tiles, lng_tiles),
        0 <= i < grid(bbox, lat_tiles, lng_tiles).len(),
        grid(bbox, lat_tiles, lng_tiles)[i].holds(lat, lng),
    ensures
        bbox.holds(lat, lng),
{
    reveal(grid);
    reveal(tile);
    let rows = at_least_one(lat_tiles);
    let columns = at_least_one(lng_tiles);
    let tiles = grid(bbox, lat_tiles, lng_tiles);
    lemma_whole_axes(bbox, rows, columns);
    lemma_whole_tiles(bbox, rows, columns, rows * columns);
    assert(tiles[i as nat as int] == tile_number(bbox, rows, columns, i as nat));
    lemma_cell(rows, columns, i as nat);
    let (row, column) = (i as nat / columns, i as nat % columns);
    lemma_first_edge(bbox.min.lat, bbox.max.lat, rows);
    lemma_first_edge(bbox.min.lng, bbox.max.lng, columns);
    lemma_edges_rise(bbox.min.lat, bbox.max.lat, rows, 0, row);
    lemma_edges_rise(bbox.min.lng, bbox.max.lng, columns, 0, column);
    lemma_edges_rise(bbox.min.lat, bbox.max.lat, rows, row + 1, rows);
    lemma_edges_rise(bbox.min.lng, bbox.max.lng, columns, column + 1, columns);
}

/// The number of initial tiles of an axis: the least of which each has at most the span that
/// an initial tile may have, but at least one and at most eight.
pub proof fn law_tile_count(span: u64)
    ensures
        ({
            let one = pow2(ONE_SHIFT as nat);
            let wanted = units(quotient(span, INITIAL_TILE_MAX_SPAN_DEGREES));
            let count = tile_count(span);
            &&& 1 <= count <= 8
            &&& count < 8 ==> wanted <= count * one
            &&& count > 1 ==> wanted > (count - 1) * one
        }),
{
    reveal(tile_count);
    let one = pow2(ONE_SHIFT as nat);
    lemma_pow2_pos(ONE_SHIFT as nat);
    let wanted = units(quotient(span, INITIAL_TILE_MAX_SPAN_DEGREES));
    if wanted > 0 {
        let n = wanted as nat;
        let count = tile_count(span);
        lemma_fundamental_div_mod(n as int, one as int);
        let q = n / one;
        let r = n % one;
        let up = ceiling(n, one);
        assert(n <= up * one && (up - 1) * one < n) by (nonlinear_arith)
            requires
                n == one * q + r,
                0 <= r < one,
                n > 0,
                up == (if r == 0 {
                    q
                } else {
                    (q + 1) as nat
                }),
        ;
        assert(up >= 1) by (nonlinear_arith)
            requires
                n <= up * one,
                n > 0,
        ;
        if count < up {
            assert(count == 8);
            lemma_mul_inequality((count - 1) as int, (up - 1) as int, one as int);
        }
    }
}

/// The edges of a cut lie evenly: an edge is where it divides the axis in the ratio of its
/// number to the rest, but for one part in two to the power of 50 and a few units.
pub proof fn law_edges_even(min: u64, max: u64, tiles: u64, index: u64)
    requires
        magnitude(min) <= ONE_EIGHTY,
        magnitude(max) <= ONE_EIGHTY,
        units(min) < units(max),
        index < tiles <= MAX_GRID,
    ensures
        ({
            let at = units(edge(min, max, tiles as nat, index as nat));
            let even = units(min) * (tiles - index) + units(max) * index;
            let extent = units(max) - units(min);
            distance(at * tiles - even) * 0x4_0000_0000_0000 <= tiles * (2 * extent + distance(
                units(min),
            ) + tiles * 0x4_0000_0000_0000)
        }),
{
    let m = units(min);
    let x = units(max) - units(min);
    let v = units(difference(max, min));
    let t = units(step(min, max, tiles as nat));
    let p = offset(min, max, tiles, index);
    let e = units(edge(min, max, tiles as nat, index as nat));
    let n = tiles as int;
    let i = index as int;
    lemma_span(min, max);
    lemma_span_below(min, max);
    lemma_width(min, max, tiles);
    lemma_width_below(min, max, tiles);
    lemma_offset(min, max, tiles, index);
    lemma_offset_ordered(min, max, tiles, index, index);
    lemma_rounding_error_below((t * index) as nat, 1);
    lemma_edge(min, max, tiles, index);
    lemma_rounding_error(distance(m + p), 1);
    lemma_rounding_error_below(distance(m + p), 1);
    lemma_even_arithmetic(n, i, m, x, v, t, p, e);
    assert(m * (n - i) + (m + x) * i == m * n + x * i) by (nonlinear_arith);
}

proof fn lemma_span_below(min: u64, max: u64)
    requires
        is_axis(min, max),
    ensures
        (units(max) - units(min)) * (2 * HIDDEN) <= units(difference(max, min)) * (2 * HIDDEN) + (
        units(max) - units(min)),
{
    let exact = units(max) - units(min);
    assert(magnitude(negated(min)) == magnitude(min));
    assert(units(negated(min)) == -units(min));
    lemma_units_bound(magnitude(min), 1031);
    lemma_units_bound(magnitude(max), 1031);
    lemma_pow2_unfold(1083);
    lemma_rounded_bound(distance(exact), 1, 1032);
    lemma_signed_units(false, rounded(distance(exact), 1));
    lemma_rounding_error_below(distance(exact), 1);
}

proof fn lemma_width_below(min: u64, max: u64, tiles: u64)
    requires
        is_axis(min, max),
        0 < tiles <= MAX_GRID,
    ensures
        units(difference(max, min)) * (4 * HIDDEN) <= (units(step(min, max, tiles as nat)) * tiles)
            * (4 * HIDDEN) + units(difference(max, min)) * 2 + tiles * (2 * HIDDEN),
{
    reveal(step);
    let one = pow2(ONE_SHIFT as nat);
    lemma_pow2_pos(ONE_SHIFT as nat);
    lemma_span(min, max);
    lemma_nearest_exact(tiles);
    let v = units(difference(max, min)) as nat;
    lemma_mul_nonnegative(tiles as int, one as int);
    lemma_rounded_in_units(v, tiles as nat);
    lemma_units_bound(magnitude(difference(max, min)), 1032);
    lemma_mul_inequality(1, tiles as int, pow2(1083) as int);
    lemma_rounded_bound(v, tiles as nat, 1032);
    lemma_signed_units(false, rounded(v, tiles as nat));
    lemma_rounding_error_below(v, tiles as nat);
}

/// The roundings of an edge add up to little.
proof fn lemma_even_arithmetic(n: int, i: int, m: int, x: int, v: int, t: int, p: int, e: int)
    requires
        0 <= i < n,
        0 < x,
        0 <= v,
        0 <= t,
        0 <= p,
        v * 0x20_0000_0000_0000 <= x * 0x20_0000_0000_0001,
        x * 0x20_0000_0000_0000 <= v * 0x20_0000_0000_0000 + x,
        (t * n) * 0x40_0000_0000_0000 <= v * 0x40_0000_0000_0002 + n * 0x20_0000_0000_0000,
        v * 0x40_0000_0000_0000 <= (t * n) * 0x40_0000_0000_0000 + v * 2 + n * 0x20_0000_0000_0000,
        p * 0x20_0000_0000_0000 <= (t * i) * 0x20_0000_0000_0001,
        (t * i) * 0x20_0000_0000_0000 <= p * 0x20_0000_0000_0000 + t * i,
        distance(e) * 0x20_0000_0000_0000 <= distance(m + p) * 0x20_0000_0000_0001,
        distance(m + p) * 0x20_0000_0000_0000 <= distance(e) * 0x20_0000_0000_0000 + distance(
            m + p,
        ),
        m + p >= 0 ==> e >= 0,
        m + p <= 0 ==> e <= 0,
    ensures
        distance(e * n - (m * n + x * i)) * 0x4_0000_0000_0000 <= n * (2 * x + distance(m) + n
            * 0x4_0000_0000_0000),
{
    let vi = v * i;
    let xi = x * i;
    let a = (t * n) * i;
    let pn = p * n;
    let sn = (m + p) * n;
    let en = e * n;
    assert(vi * 0x20_0000_0000_0000 <= xi * 0x20_0000_0000_0001 && xi * 0x20_0000_0000_0000 <= vi
        * 0x20_0000_0000_0000 + xi) by (nonlinear_arith)
        requires
            v * 0x20_0000_0000_0000 <= x * 0x20_0000_0000_0001,
            x * 0x20_0000_0000_0000 <= v * 0x20_0000_0000_0000 + x,
            i >= 0,
            vi == v * i,
            xi == x * i,
    ;
    let ni = n * i;
    lemma_scaled(
        (t * n) * 0x40_0000_0000_0000,
        v * 0x40_0000_0000_0002 + n * 0x20_0000_0000_0000,
        i,
    );
    lemma_scaled(
        v * 0x40_0000_0000_0000,
        (t * n) * 0x40_0000_0000_0000 + v * 2 + n * 0x20_0000_0000_0000,
        i,
    );
    assert(a * 0x40_0000_0000_0000 <= vi * 0x40_0000_0000_0002 + ni * 0x20_0000_0000_0000) by {
        assert(((t * n) * 0x40_0000_0000_0000) * i == a * 0x40_0000_0000_0000) by (nonlinear_arith)
            requires
                a == (t * n) * i,
        ;
        assert((v * 0x40_0000_0000_0002 + n * 0x20_0000_0000_0000) * i == vi * 0x40_0000_0000_0002
            + ni * 0x20_0000_0000_0000) by (nonlinear_arith)
            requires
                vi == v * i,
                ni == n * i,
        ;
    }
    assert(vi * 0x40_0000_0000_0000 <= a * 0x40_0000_0000_0000 + vi * 2 + ni
        * 0x20_0000_0000_0000) by {
        assert((v * 0x40_0000_0000_0000) * i == vi * 0x40_0000_0000_0000) by (nonlinear_arith)
            requires
                vi == v * i,
        ;
        assert(((t * n) * 0x40_0000_0000_0000 + v * 2 + n * 0x20_0000_0000_0000) * i == a
            * 0x40_0000_0000_0000 + vi * 2 + ni * 0x20_0000_0000_0000) by (nonlinear_arith)
            requires
                a == (t * n) * i,
                vi == v * i,
                ni == n * i,
        ;
    }
    assert(a == (t * i) * n) by (nonlinear_arith)
        requires
            a == (t * n) * i,
    ;
    let ti = t * i;
    assert(pn * 0x20_0000_0000_0000 <= a * 0x20_0000_0000_0001 && a * 0x20_0000_0000_0000 <= pn
        * 0x20_0000_0000_0000 + a) by (nonlinear_arith)
        requires
            p * 0x20_0000_0000_0000 <= ti * 0x20_0000_0000_0001,
            ti * 0x20_0000_0000_0000 <= p * 0x20_0000_0000_0000 + ti,
            n >= 0,
            a == ti * n,
            pn == p * n,
    ;
    let mn = m * n;
    assert(sn == mn + pn) by (nonlinear_arith)
        requires
            sn == (m + p) * n,
            mn == m * n,
            pn == p * n,
    ;
    let s = m + p;
    assert(s >= 0 ==> en * 0x20_0000_0000_0000 <= sn * 0x20_0000_0000_0001 && sn
        * 0x20_0000_0000_0000 <= en * 0x20_0000_0000_0000 + sn) by (nonlinear_arith)
        requires
            s >= 0 ==> e * 0x20_0000_0000_0000 <= s * 0x20_0000_0000_0001 && s
                * 0x20_0000_0000_0000 <= e * 0x20_0000_0000_0000 + s,
            n >= 0,
            en == e * n,
            sn == s * n,
    ;
    assert(s < 0 ==> -en * 0x20_0000_0000_0000 <= -sn * 0x20_0000_0000_0001 && -sn
        * 0x20_0000_0000_0000 <= -en * 0x20_0000_0000_0000 - sn) by (nonlinear_arith)
        requires
            s < 0 ==> -e * 0x20_0000_0000_0000 <= -s * 0x20_0000_0000_0001 && -s
                * 0x20_0000_0000_0000 <= -e * 0x20_0000_0000_0000 - s,
            n >= 0,
            en == e * n,
            sn == s * n,
    ;
    let xn = x * n;
    let nn = n * n;
    assert(0 <= xi <= xn && 0 <= ni <= nn && 0 <= vi && 0 <= a && 0 <= pn && (s >= 0 ==> sn >= 0)
        && (s < 0 ==> sn <= 0) && n <= nn) by (nonlinear_arith)
        requires
            0 <= i < n,
            0 < x,
            0 <= v,
            0 <= ti,
            0 <= p,
            xi == x * i,
            xn == x * n,
            ni == n * i,
            nn == n * n,
            vi == v * i,
            a == ti * n,
            pn == p * n,
            sn == s * n,
    ;
    let dn = distance(m) * n;
    assert(-dn <= mn <= dn && dn >= 0) by (nonlinear_arith)
        requires
            dn == distance(m) * n,
            mn == m * n,
            -(distance(m) as int) <= m <= distance(m),
            n >= 0,
    ;
    assert(n * (2 * x + distance(m) + n * 0x4_0000_0000_0000) == 2 * xn + dn + nn
        * 0x4_0000_0000_0000) by (nonlinear_arith)
        requires
            xn == x * n,
            dn == distance(m) * n,
            nn == n * n,
    ;
}

proof fn lemma_scaled(low: int, high: int, k: int)
    requires
        low <= high,
        k >= 0,
    ensures
        low * k <= high * k,
{
    lemma_mul_inequality(low, high, k);
}

/// The initial tiles of an area are a grid whose rows are counted by the span of its
/// latitudes and whose columns by that of its longitudes: as few as keep each tile within
/// the span that it may have, and at most eight.
pub proof fn law_initial_grid(bbox: LLBBox) -> (counts: (nat, nat))
    ensures
        ({
            let (rows, columns) = counts;
            let one = pow2(ONE_SHIFT as nat);
            let lat = units(
                quotient(difference(bbox.max.lat, bbox.min.lat), INITIAL_TILE_MAX_SPAN_DEGREES),
            );
            let lng = units(
                quotient(difference(bbox.max.lng, bbox.min.lng), INITIAL_TILE_MAX_SPAN_DEGREES),
            );
            &&& initial_tiles(bbox) == grid(bbox, rows, columns)
            &&& 1 <= rows <= 8
            &&& 1 <= columns <= 8
            &&& rows < 8 ==> lat <= rows * one
            &&& rows > 1 ==> lat > (rows - 1) * one
            &&& columns < 8 ==> lng <= columns * one
            &&& columns > 1 ==> lng > (columns - 1) * one
        }),
{
    reveal(initial_tiles);
    let lat_span = difference(bbox.max.lat, bbox.min.lat);
    let lng_span = difference(bbox.max.lng, bbox.min.lng);
    law_tile_count(lat_span);
    law_tile_count(lng_span);
    (tile_count(lat_span), tile_count(lng_span))
}

/// The tiles of a whole grid come row by row from the south-west: a tile begins to the east
/// where the one before it ends, in the same row, or it begins the next row at the western
/// edge.
pub proof fn law_row_by_row(bbox: LLBBox, lat_tiles: nat, lng_tiles: nat, i: int)
    requires
        is_whole(bbox, lat_tiles, lng_tiles),
        0 <= i,
        i + 1 < grid(bbox, lat_tiles, lng_tiles).len(),
    ensures
        ({
            let tiles = grid(bbox, lat_tiles, lng_tiles);
            let columns = at_least_one(lng_tiles) as int;
            &&& tiles.len() == at_least_one(lat_tiles) * at_least_one(lng_tiles)
            &&& (i + 1) % columns != 0 ==> {
                &&& tiles[i + 1].min.lng == tiles[i].max.lng
                &&& tiles[i + 1].min.lat == tiles[i].min.lat
                &&& tiles[i + 1].max.lat == tiles[i].max.lat
            }
            &&& (i + 1) % columns == 0 ==> {
                &&& tiles[i + 1].min.lat == tiles[i].max.lat
                &&& units(tiles[i + 1].min.lng) == units(bbox.min.lng)
                &&& tiles[i].max.lng == bbox.max.lng
            }
        }),
{
    reveal(grid);
    reveal(tile);
    let rows = at_least_one(lat_tiles);
    let columns = at_least_one(lng_tiles);
    let tiles = grid(bbox, lat_tiles, lng_tiles);
    lemma_whole_tiles(bbox, rows, columns, rows * columns);
    let k = i as nat;
    let l = (i + 1) as nat;
    assert(tiles[k as int] == tile_number(bbox, rows, columns, k));
    assert(tiles[l as int] == tile_number(bbox, rows, columns, l));
    lemma_cell(rows, columns, k);
    lemma_cell(rows, columns, l);
    lemma_first_edge(bbox.min.lng, bbox.max.lng, columns);
    let row = k / columns;
    let column = k % columns;
    assert(row * columns + column + 1 == l);
    if column + 1 < columns {
        lemma_fundamental_div_mod_converse(
            l as int,
            columns as int,
            row as int,
            (column + 1) as int,
        );
    } else {
        assert((row + 1) * columns == row * columns + columns) by (nonlinear_arith);
        lemma_fundamental_div_mod_converse(l as int, columns as int, (row + 1) as int, 0);
    }
}

} // verus!
