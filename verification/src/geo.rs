//! Tile arithmetic and world space.
//!
//! World space is fixed at [`WORLD_ZOOM`]: a tile at zoom `z <= WORLD_ZOOM`
//! covers `TILE_EXTENT * 2^(WORLD_ZOOM - z)` world units per axis, so tiles
//! fetched at coarser zooms are scaled into the same space and the camera
//! never rebases when the level of detail changes.
use vstd::prelude::*;

use crate::feature::{Point, PolygonFeature, PolygonRing, RoadFeature, SpecPolygon, SpecRing, SpecRoad,
    polygons_view, rings_view, roads_view};
use crate::scene::{
    build_three_layer_scene, layer_data_view, three_layers, LayerPayload, SpecLayerData, SpecPayload,
    SpecScene, TileSceneData,
};
use crate::tile::TileId;

verus! {

/// MVT tile coordinate extent (Mapbox Vector Tile spec default).
pub const TILE_EXTENT: u32 = 4096;

/// Camera / merge world space is always expressed at this slippy-map zoom.
pub const WORLD_ZOOM: u8 = 14;

/// Coarsest tile zoom used by the viewer's level-of-detail ladder.
pub const MIN_TILE_ZOOM: u8 = 10;

/// Default map zoom: the world zoom (buildings appear from zoom 13 on).
pub const DEFAULT_ZOOM: u8 = WORLD_ZOOM;

pub open spec fn pow2(n: nat) -> nat
    decreases n,
{
    if n == 0 {
        1
    } else {
        2 * pow2((n - 1) as nat)
    }
}

/// How many zoom levels a tile at zoom `z` lies above the world zoom.
pub open spec fn zoom_gap(z: u8) -> nat {
    if z < WORLD_ZOOM {
        (WORLD_ZOOM - z) as nat
    } else {
        0
    }
}

/// World units per tile side at zoom `z`.
pub open spec fn tile_span(z: u8) -> nat {
    (TILE_EXTENT as nat) * pow2(zoom_gap(z))
}

/// World units per tile-local unit at zoom `z`.
pub open spec fn tile_scale(z: u8) -> nat {
    pow2(zoom_gap(z))
}

proof fn lemma_pow2_positive(n: nat)
    ensures
        pow2(n) >= 1,
    decreases n,
{
    if n > 0 {
        lemma_pow2_positive((n - 1) as nat);
    }
}

proof fn lemma_pow2_bounds(n: nat)
    requires
        n <= 14,
    ensures
        1 <= pow2(n) <= 16384,
{
    lemma_pow2_positive(n);
    lemma_pow2_monotone(n, 14);
    reveal_with_fuel(pow2, 15);
}

/// Scale factor from a tile's local MVT units into world units.
pub fn tile_to_world_scale(z: u8) -> (r: u64)
    ensures
        r == tile_scale(z),
        1 <= r <= 16384,
{
    let delta = WORLD_ZOOM.saturating_sub(z);
    let mut scale: u64 = 1;
    let mut i: u8 = 0;
    proof {
        lemma_pow2_bounds(zoom_gap(z));
    }
    while i < delta
        invariant
            delta == zoom_gap(z),
            delta <= 14,
            i <= delta,
            scale == pow2(i as nat),
        decreases delta - i,
    {
        proof {
            lemma_pow2_bounds((i + 1) as nat);
        }
        scale = scale * 2;
        i += 1;
    }
    scale
}

/// How many world units one tile at zoom `z` covers on an axis.
pub fn world_units_per_tile(z: u8) -> (r: u64)
    ensures
        r == tile_span(z),
        4096 <= r <= 67_108_864,
{
    let scale = tile_to_world_scale(z);
    assert(4096 * scale <= 67_108_864) by (nonlinear_arith)
        requires
            scale <= 16384,
    ;
    TILE_EXTENT as u64 * scale
}

/// World-space origin (min corner) of a tile.
pub fn tile_world_origin(tile: TileId) -> (r: Point)
    ensures
        r.x == tile.x * tile_span(tile.z),
        r.y == tile.y * tile_span(tile.z),
        0 <= r.x <= 0x0400_0000_0000_0000,
        0 <= r.y <= 0x0400_0000_0000_0000,
{
    let span = world_units_per_tile(tile.z);
    proof {
        assert(tile.x * span <= 0xffff_ffff * 67_108_864) by (nonlinear_arith)
            requires
                tile.x <= 0xffff_ffff,
                span <= 67_108_864,
        ;
        assert(tile.y * span <= 0xffff_ffff * 67_108_864) by (nonlinear_arith)
            requires
                tile.y <= 0xffff_ffff,
                span <= 67_108_864,
        ;
    }
    Point { x: (tile.x as u64 * span) as i64, y: (tile.y as u64 * span) as i64 }
}

/// Zooming out one level doubles the world span of a tile, down to the world
/// zoom; from the world zoom on, every tile spans one tile extent.
pub proof fn lemma_span_doubles_per_zoom_level(z: u8)
    requires
        1 <= z <= WORLD_ZOOM,
    ensures
        tile_span((z - 1) as u8) == 2 * tile_span(z),
        tile_span(WORLD_ZOOM) == TILE_EXTENT,
        tile_span(z) == tile_scale(z) * TILE_EXTENT,
{
    assert(zoom_gap((z - 1) as u8) == zoom_gap(z) + 1);
    assert(pow2(zoom_gap(z) + 1) == 2 * pow2(zoom_gap(z)));
    assert(4096 * (2 * pow2(zoom_gap(z))) == 2 * (4096 * pow2(zoom_gap(z)))) by (nonlinear_arith);
    assert(pow2(0) == 1);
}

/// A tile at zoom `z <= WORLD_ZOOM` lies inside its ancestor `d` levels up
/// (the tile whose indices are its own divided by `2^d`): the child's world
/// origin falls within the ancestor's span on both axes.
pub proof fn lemma_child_origin_within_ancestor(child: TileId, d: u8)
    requires
        child.z <= WORLD_ZOOM,
        d <= child.z,
    ensures
        ({
            let k = pow2(d as nat) as int;
            let parent = TileId { z: (child.z - d) as u8, x: ((child.x as int) / k) as u32, y: ((child.y as int) / k) as u32 };
            &&& parent.x * tile_span(parent.z) <= child.x * tile_span(child.z)
            &&& child.x * tile_span(child.z) < parent.x * tile_span(parent.z) + tile_span(parent.z)
            &&& parent.y * tile_span(parent.z) <= child.y * tile_span(child.z)
            &&& child.y * tile_span(child.z) < parent.y * tile_span(parent.z) + tile_span(parent.z)
        }),
{
    let k = pow2(d as nat) as int;
    lemma_pow2_positive(d as nat);
    let pz = (child.z - d) as u8;
    assert(zoom_gap(pz) == zoom_gap(child.z) + d);
    lemma_pow2_add(zoom_gap(child.z), d as nat);
    let sc = tile_span(child.z) as int;
    let sp = tile_span(pz) as int;
    assert(sp == 4096 * (pow2(zoom_gap(child.z)) * pow2(d as nat)));
    assert(sp == sc * k) by (nonlinear_arith)
        requires
            sp == 4096 * (pow2(zoom_gap(child.z)) * pow2(d as nat)),
            sc == 4096 * pow2(zoom_gap(child.z)),
            k == pow2(d as nat),
    ;
    lemma_pow2_positive(zoom_gap(child.z));
    assert(sc > 0);
    lemma_cell_bounds(child.x as int, k, sc);
    lemma_cell_bounds(child.y as int, k, sc);
}

proof fn lemma_cell_bounds(v: int, k: int, s: int)
    requires
        v >= 0,
        k >= 1,
        s >= 1,
    ensures
        (v / k) * (s * k) <= v * s,
        v * s < (v / k) * (s * k) + s * k,
{
    let q = v / k;
    let r = v % k;
    assert(v == q * k + r && 0 <= r < k) by (nonlinear_arith)
        requires
            k >= 1,
            q == v / k,
            r == v % k,
    ;
    assert(q * (s * k) <= v * s && v * s < q * (s * k) + s * k) by (nonlinear_arith)
        requires
            v == q * k + r,
            0 <= r < k,
            s >= 1,
    ;
}

/// The largest tile column or row at zoom `z`.
pub fn max_tile_index(z: u8) -> (r: u32)
    requires
        z < 32,
    ensures
        r == pow2(z as nat) - 1,
{
    let mut n: u64 = 1;
    let mut i: u8 = 0;
    while i < z
        invariant
            z < 32,
            i <= z,
            n == pow2(i as nat),
            n <= 0x8000_0000,
        decreases z - i,
    {
        proof {
            lemma_pow2_monotone((i + 1) as nat, 31);
            lemma_pow2_31();
        }
        n = n * 2;
        i += 1;
    }
    proof {
        lemma_pow2_positive(z as nat);
    }
    (n - 1) as u32
}

proof fn lemma_pow2_31()
    ensures
        pow2(31) == 0x8000_0000,
{
    reveal_with_fuel(pow2, 32);
}

proof fn lemma_pow2_monotone(a: nat, b: nat)
    requires
        a <= b,
    ensures
        pow2(a) <= pow2(b),
    decreases b,
{
    if a < b {
        lemma_pow2_monotone(a, (b - 1) as nat);
    }
}

proof fn lemma_pow2_add(a: nat, b: nat)
    ensures
        pow2(a + b) == pow2(a) * pow2(b),
    decreases b,
{
    if b > 0 {
        let b1 = (b - 1) as nat;
        lemma_pow2_add(a, b1);
        let pa = pow2(a);
        let pb1 = pow2(b1);
        assert(pow2(a + b) == 2 * pow2(a + b1));
        assert(pow2(b) == 2 * pb1);
        assert(pa * (2 * pb1) == 2 * (pa * pb1)) by (nonlinear_arith);
        assert(pa * pow2(b) == pa * (2 * pb1));
    } else {
        assert(pow2(b) == 1);
        assert(a + b == a);
    }
}

/// The tile `i`-th in x-major order among columns `x_min..` and
/// `ny` rows `y_min..`.
pub open spec fn range_tile(z: u8, x_min: u32, y_min: u32, ny: nat, i: int) -> TileId {
    TileId { z, x: (x_min + i / (ny as int)) as u32, y: (y_min + i % (ny as int)) as u32 }
}

/// All tiles at zoom `z` with column in `x_min..=x_max` and row in
/// `y_min..=y_max`, column by column, each column from top to bottom.
/// Empty when a range is empty.
pub fn tiles_in_index_range(z: u8, x_min: u32, x_max: u32, y_min: u32, y_max: u32) -> (r: Vec<TileId>)
    requires
        x_min <= x_max && y_min <= y_max ==> (x_max - x_min + 1) * (y_max - y_min + 1) <= usize::MAX,
    ensures
        x_min > x_max || y_min > y_max ==> r@.len() == 0,
        x_min <= x_max && y_min <= y_max ==> {
            &&& r@.len() == (x_max - x_min + 1) * (y_max - y_min + 1)
            &&& forall|i: int| 0 <= i < r@.len() ==> #[trigger] r@[i]
                == range_tile(z, x_min, y_min, (y_max - y_min + 1) as nat, i)
        },
{
    let mut tiles: Vec<TileId> = Vec::new();
    if x_min > x_max || y_min > y_max {
        return tiles;
    }
    let ghost ny: nat = (y_max - y_min + 1) as nat;
    let x_end: u64 = x_max as u64 + 1;
    let y_end: u64 = y_max as u64 + 1;
    let mut x: u64 = x_min as u64;
    while x < x_end
        invariant
            x_min <= x <= x_end,
            x_end == x_max + 1,
            y_end == y_max + 1,
            x_min <= x_max && y_min <= y_max,
            (x_max - x_min + 1) * ny <= usize::MAX,
            ny == y_max - y_min + 1,
            tiles@.len() == (x - x_min) * ny,
            forall|i: int| 0 <= i < tiles@.len() ==> #[trigger] tiles@[i] == range_tile(z, x_min, y_min, ny, i),
        decreases x_end - x,
    {
        let mut y: u64 = y_min as u64;
        while y < y_end
            invariant
                x_min <= x < x_end,
                y_min <= y <= y_end,
                x_end == x_max + 1,
                y_end == y_max + 1,
                (x_max - x_min + 1) * ny <= usize::MAX,
                ny == y_max - y_min + 1,
                tiles@.len() == (x - x_min) * ny + (y - y_min),
                forall|i: int| 0 <= i < tiles@.len() ==> #[trigger] tiles@[i] == range_tile(z, x_min, y_min, ny, i),
            decreases y_end - y,
        {
            proof {
                let i = (x - x_min) * ny + (y - y_min);
                assert(i / (ny as int) == x - x_min && i % (ny as int) == y - y_min) by (nonlinear_arith)
                    requires
                        i == (x - x_min) * ny + (y - y_min),
                        0 <= y - y_min < ny,
                        x - x_min >= 0,
                ;
                assert((x - x_min) * ny + (y - y_min) < (x_max - x_min + 1) * ny) by (nonlinear_arith)
                    requires
                        x <= x_max,
                        y - y_min < ny,
                ;
            }
            tiles.push(TileId::new(z, x as u32, y as u32));
            y += 1;
        }
        assert((x - x_min) * ny + ny == (x + 1 - x_min) * ny) by (nonlinear_arith);
        x += 1;
    }
    tiles
}

/// The index range lists exactly the tiles of the rectangle: every listed
/// tile lies in it, and every tile of zoom `z` in it is listed, at the
/// position `(x - x_min) * rows + (y - y_min)`.
pub proof fn lemma_index_range_is_rectangle(z: u8, x_min: u32, x_max: u32, y_min: u32, y_max: u32, t: TileId)
    requires
        x_min <= x_max,
        y_min <= y_max,
    ensures
        forall|i: int| 0 <= i < (x_max - x_min + 1) * (y_max - y_min + 1) ==> {
            let r = #[trigger] range_tile(z, x_min, y_min, (y_max - y_min + 1) as nat, i);
            r.z == z && x_min <= r.x <= x_max && y_min <= r.y <= y_max
        },
        t.z == z && x_min <= t.x <= x_max && y_min <= t.y <= y_max ==> {
            let i = (t.x - x_min) * (y_max - y_min + 1) + (t.y - y_min);
            &&& 0 <= i < (x_max - x_min + 1) * (y_max - y_min + 1)
            &&& range_tile(z, x_min, y_min, (y_max - y_min + 1) as nat, i) == t
        },
{
    let ny: int = y_max - y_min + 1;
    let nx: int = x_max - x_min + 1;
    assert forall|i: int| 0 <= i < nx * ny implies {
        let r = #[trigger] range_tile(z, x_min, y_min, ny as nat, i);
        r.z == z && x_min <= r.x <= x_max && y_min <= r.y <= y_max
    } by {
        assert(0 <= i / ny < nx && 0 <= i % ny < ny) by (nonlinear_arith)
            requires
                0 <= i < nx * ny,
                ny >= 1,
                nx >= 1,
        ;
    }
    if t.z == z && x_min <= t.x <= x_max && y_min <= t.y <= y_max {
        let a: int = t.x - x_min;
        let b: int = t.y - y_min;
        let i = a * ny + b;
        assert(0 <= i < nx * ny && i / ny == a && i % ny == b) by (nonlinear_arith)
            requires
                i == a * ny + b,
                0 <= a < nx,
                0 <= b < ny,
        ;
    }
}

/// A tile-local coordinate within 32-bit range, as decoded tiles hold.
pub open spec fn in_tile_range(p: Point) -> bool {
    -0x8000_0000 <= p.x <= 0x8000_0000 && -0x8000_0000 <= p.y <= 0x8000_0000
}

pub open spec fn points_in_tile_range(s: Seq<Point>) -> bool {
    forall|k: int| 0 <= k < s.len() ==> in_tile_range(#[trigger] s[k])
}

pub open spec fn polygon_in_tile_range(p: SpecPolygon) -> bool {
    forall|k: int| 0 <= k < p.rings.len() ==> points_in_tile_range(#[trigger] p.rings[k].points)
}

pub open spec fn polygons_in_tile_range(v: Seq<SpecPolygon>) -> bool {
    forall|k: int| 0 <= k < v.len() ==> polygon_in_tile_range(#[trigger] v[k])
}

pub open spec fn roads_in_tile_range(v: Seq<SpecRoad>) -> bool {
    forall|k: int| 0 <= k < v.len() ==> points_in_tile_range(#[trigger] v[k].points)
}

pub open spec fn payload_in_tile_range(pl: SpecPayload) -> bool {
    match pl {
        SpecPayload::Background(v) => polygons_in_tile_range(v),
        SpecPayload::Buildings(v) => polygons_in_tile_range(v),
        SpecPayload::Roads(v) => roads_in_tile_range(v),
        SpecPayload::Empty => true,
    }
}

/// Every coordinate of the scene is a tile-local coordinate in 32-bit range.
pub open spec fn scene_in_tile_range(s: SpecScene) -> bool {
    forall|k: int| 0 <= k < s.layers.len() ==> payload_in_tile_range(#[trigger] s.layers[k].payload)
}

/// A camera origin the world-space arithmetic can hold.
pub open spec fn origin_in_range(o: Point) -> bool {
    -0x1000_0000_0000_0000 <= o.x <= 0x1000_0000_0000_0000
        && -0x1000_0000_0000_0000 <= o.y <= 0x1000_0000_0000_0000
}

/// `p` scaled by `scale` and shifted by `(sx, sy)`.
pub open spec fn shift_point(p: Point, scale: int, sx: int, sy: int) -> Point {
    Point { x: (p.x * scale + sx) as i64, y: (p.y * scale + sy) as i64 }
}

pub open spec fn shift_points(s: Seq<Point>, scale: int, sx: int, sy: int) -> Seq<Point> {
    s.map_values(|p: Point| shift_point(p, scale, sx, sy))
}

pub open spec fn shift_road(r: SpecRoad, scale: int, sx: int, sy: int) -> SpecRoad {
    SpecRoad { points: shift_points(r.points, scale, sx, sy), ..r }
}

pub open spec fn shift_ring(r: SpecRing, scale: int, sx: int, sy: int) -> SpecRing {
    SpecRing { points: shift_points(r.points, scale, sx, sy), role: r.role }
}

pub open spec fn shift_polygon(p: SpecPolygon, scale: int, sx: int, sy: int) -> SpecPolygon {
    SpecPolygon { rings: p.rings.map_values(|r: SpecRing| shift_ring(r, scale, sx, sy)), ..p }
}

pub open spec fn shift_polygons(v: Seq<SpecPolygon>, scale: int, sx: int, sy: int) -> Seq<SpecPolygon> {
    v.map_values(|p: SpecPolygon| shift_polygon(p, scale, sx, sy))
}

pub open spec fn shift_roads(v: Seq<SpecRoad>, scale: int, sx: int, sy: int) -> Seq<SpecRoad> {
    v.map_values(|r: SpecRoad| shift_road(r, scale, sx, sy))
}

/// Bounds under which scaling and shifting a tile-local point stays in `i64`.
pub open spec fn shift_in_range(scale: int, sx: int, sy: int) -> bool {
    &&& 1 <= scale <= 16384
    &&& -0x2000_0000_0000_0000 <= sx <= 0x2000_0000_0000_0000
    &&& -0x2000_0000_0000_0000 <= sy <= 0x2000_0000_0000_0000
}

fn map_point_to_world(point: Point, scale: i64, shift: Point) -> (r: Point)
    requires
        in_tile_range(point),
        shift_in_range(scale as int, shift.x as int, shift.y as int),
    ensures
        r == shift_point(point, scale as int, shift.x as int, shift.y as int),
{
    assert(-0x8000_0000 * 16384 <= point.x * scale <= 0x8000_0000 * 16384) by (nonlinear_arith)
        requires
            -0x8000_0000 <= point.x <= 0x8000_0000,
            1 <= scale <= 16384,
    ;
    assert(-0x8000_0000 * 16384 <= point.y * scale <= 0x8000_0000 * 16384) by (nonlinear_arith)
        requires
            -0x8000_0000 <= point.y <= 0x8000_0000,
            1 <= scale <= 16384,
    ;
    Point { x: point.x * scale + shift.x, y: point.y * scale + shift.y }
}

fn offset_points(points: &Vec<Point>, scale: i64, shift: Point) -> (r: Vec<Point>)
    requires
        points_in_tile_range(points@),
        shift_in_range(scale as int, shift.x as int, shift.y as int),
    ensures
        r@ == shift_points(points@, scale as int, shift.x as int, shift.y as int),
{
    let mut out: Vec<Point> = Vec::with_capacity(points.len());
    let mut i: usize = 0;
    while i < points.len()
        invariant
            points_in_tile_range(points@),
            shift_in_range(scale as int, shift.x as int, shift.y as int),
            i <= points@.len(),
            out@ == shift_points(points@.take(i as int), scale as int, shift.x as int, shift.y as int),
        decreases points@.len() - i,
    {
        let q = map_point_to_world(points[i], scale, shift);
        let ghost before = out@;
        out.push(q);
        assert(points@.take(i + 1) =~= points@.take(i as int).push(points@[i as int]));
        assert(out@ =~= shift_points(points@.take(i + 1), scale as int, shift.x as int, shift.y as int));
        i += 1;
    }
    assert(points@.take(points@.len() as int) =~= points@);
    out
}

/// The road moved into world space: same id, class and layer, every point
/// scaled by `scale` and shifted by `shift`.
fn offset_road(road: &RoadFeature, scale: i64, shift: Point) -> (r: RoadFeature)
    requires
        points_in_tile_range(road@.points),
        shift_in_range(scale as int, shift.x as int, shift.y as int),
    ensures
        r@ == shift_road(road@, scale as int, shift.x as int, shift.y as int),
{
    RoadFeature {
        id: road.id,
        class: road.class.clone(),
        source_layer: road.source_layer.clone(),
        points_tile: offset_points(&road.points_tile, scale, shift),
    }
}

/// The polygon moved into world space, ring by ring.
fn offset_polygon(polygon: &PolygonFeature, scale: i64, shift: Point) -> (r: PolygonFeature)
    requires
        polygon_in_tile_range(polygon@),
        shift_in_range(scale as int, shift.x as int, shift.y as int),
    ensures
        r@ == shift_polygon(polygon@, scale as int, shift.x as int, shift.y as int),
{
    let ghost sc = scale as int;
    let mut rings: Vec<PolygonRing> = Vec::with_capacity(polygon.rings.len());
    let mut i: usize = 0;
    while i < polygon.rings.len()
        invariant
            polygon_in_tile_range(polygon@),
            shift_in_range(scale as int, shift.x as int, shift.y as int),
            sc == scale as int,
            i <= polygon.rings@.len(),
            rings_view(rings@) == rings_view(polygon.rings@).take(i as int).map_values(
                |r: SpecRing| shift_ring(r, sc, shift.x as int, shift.y as int),
            ),
        decreases polygon.rings@.len() - i,
    {
        let ring = &polygon.rings[i];
        assert(polygon@.rings[i as int] == ring@);
        let points = offset_points(&ring.points, scale, shift);
        let ghost before = rings_view(rings@);
        let moved = PolygonRing { points, role: ring.role };
        assert(moved@ =~= shift_ring(ring@, sc, shift.x as int, shift.y as int));
        rings.push(moved);
        assert(rings_view(rings@) =~= before.push(shift_ring(ring@, sc, shift.x as int, shift.y as int)));
        assert(rings_view(polygon.rings@).take(i + 1) =~= rings_view(polygon.rings@).take(i as int).push(ring@));
        assert(rings_view(rings@) =~= rings_view(polygon.rings@).take(i + 1).map_values(
            |r: SpecRing| shift_ring(r, sc, shift.x as int, shift.y as int),
        ));
        i += 1;
    }
    assert(rings_view(polygon.rings@).take(polygon.rings@.len() as int) =~= rings_view(polygon.rings@));
    PolygonFeature {
        id: polygon.id,
        class: polygon.class.clone(),
        source_layer: polygon.source_layer.clone(),
        rings,
    }
}

/// Shift of a tile's features from tile-local units into world units
/// relative to `origin`: the tile's world origin minus `origin`.
pub open spec fn tile_shift(t: TileId, origin: Point) -> (int, int) {
    (t.x * tile_span(t.z) - origin.x, t.y * tile_span(t.z) - origin.y)
}

/// The background polygons of the first `ls.len()` layers, moved into world space.
pub open spec fn layers_background(ls: Seq<SpecLayerData>, scale: int, sx: int, sy: int) -> Seq<SpecPolygon>
    decreases ls.len(),
{
    if ls.len() == 0 {
        Seq::empty()
    } else {
        layers_background(ls.drop_last(), scale, sx, sy) + match ls.last().payload {
            SpecPayload::Background(v) => shift_polygons(v, scale, sx, sy),
            _ => Seq::empty(),
        }
    }
}

pub open spec fn layers_buildings(ls: Seq<SpecLayerData>, scale: int, sx: int, sy: int) -> Seq<SpecPolygon>
    decreases ls.len(),
{
    if ls.len() == 0 {
        Seq::empty()
    } else {
        layers_buildings(ls.drop_last(), scale, sx, sy) + match ls.last().payload {
            SpecPayload::Buildings(v) => shift_polygons(v, scale, sx, sy),
            _ => Seq::empty(),
        }
    }
}

pub open spec fn layers_roads(ls: Seq<SpecLayerData>, scale: int, sx: int, sy: int) -> Seq<SpecRoad>
    decreases ls.len(),
{
    if ls.len() == 0 {
        Seq::empty()
    } else {
        layers_roads(ls.drop_last(), scale, sx, sy) + match ls.last().payload {
            SpecPayload::Roads(v) => shift_roads(v, scale, sx, sy),
            _ => Seq::empty(),
        }
    }
}

/// Background polygons of a sequence of tiles merged relative to `origin`,
/// tile by tile, layer by layer.
pub open spec fn merged_background(tiles: Seq<SpecScene>, origin: Point) -> Seq<SpecPolygon>
    decreases tiles.len(),
{
    if tiles.len() == 0 {
        Seq::empty()
    } else {
        let t = tiles.last();
        let (sx, sy) = tile_shift(t.tile_id, origin);
        merged_background(tiles.drop_last(), origin) + layers_background(t.layers, tile_scale(t.tile_id.z) as int, sx, sy)
    }
}

pub open spec fn merged_buildings(tiles: Seq<SpecScene>, origin: Point) -> Seq<SpecPolygon>
    decreases tiles.len(),
{
    if tiles.len() == 0 {
        Seq::empty()
    } else {
        let t = tiles.last();
        let (sx, sy) = tile_shift(t.tile_id, origin);
        merged_buildings(tiles.drop_last(), origin) + layers_buildings(t.layers, tile_scale(t.tile_id.z) as int, sx, sy)
    }
}

pub open spec fn merged_roads(tiles: Seq<SpecScene>, origin: Point) -> Seq<SpecRoad>
    decreases tiles.len(),
{
    if tiles.len() == 0 {
        Seq::empty()
    } else {
        let t = tiles.last();
        let (sx, sy) = tile_shift(t.tile_id, origin);
        merged_roads(tiles.drop_last(), origin) + layers_roads(t.layers, tile_scale(t.tile_id.z) as int, sx, sy)
    }
}

pub open spec fn scenes_view(tiles: Seq<&TileSceneData>) -> Seq<SpecScene> {
    tiles.map_values(|t: &TileSceneData| t@)
}

/// The scene that merging `tiles` relative to `origin` yields.
pub open spec fn merged_scene(tiles: Seq<SpecScene>, origin: Point) -> SpecScene {
    SpecScene {
        tile_id: TileId { z: 0, x: 0, y: 0 },
        layers: three_layers(
            merged_background(tiles, origin),
            merged_buildings(tiles, origin),
            merged_roads(tiles, origin),
        ),
    }
}

/// Appends the features of one tile layer, moved into world space.
fn merge_layer_payload(
    payload: &LayerPayload,
    scale: i64,
    shift: Point,
    backgrounds: &mut Vec<PolygonFeature>,
    buildings: &mut Vec<PolygonFeature>,
    roads: &mut Vec<RoadFeature>,
)
    requires
        payload_in_tile_range(payload@),
        shift_in_range(scale as int, shift.x as int, shift.y as int),
    ensures
        polygons_view(final(backgrounds)@) == polygons_view(old(backgrounds)@) + match payload@ {
            SpecPayload::Background(v) => shift_polygons(v, scale as int, shift.x as int, shift.y as int),
            _ => Seq::empty(),
        },
        polygons_view(final(buildings)@) == polygons_view(old(buildings)@) + match payload@ {
            SpecPayload::Buildings(v) => shift_polygons(v, scale as int, shift.x as int, shift.y as int),
            _ => Seq::empty(),
        },
        roads_view(final(roads)@) == roads_view(old(roads)@) + match payload@ {
            SpecPayload::Roads(v) => shift_roads(v, scale as int, shift.x as int, shift.y as int),
            _ => Seq::empty(),
        },
{
    let ghost sc = scale as int;
    let ghost sx = shift.x as int;
    let ghost sy = shift.y as int;
    match payload {
        LayerPayload::Background(v) | LayerPayload::Buildings(v) => {
            let is_background = match payload {
                LayerPayload::Background(_) => true,
                _ => false,
            };
            let ghost pv = polygons_view(v@);
            let ghost start = if is_background { polygons_view(backgrounds@) } else { polygons_view(buildings@) };
            let ghost other_bg = polygons_view(backgrounds@);
            let ghost other_bl = polygons_view(buildings@);
            let mut i: usize = 0;
            while i < v.len()
                invariant
                    polygons_in_tile_range(pv),
                    pv == polygons_view(v@),
                    sc == scale as int && sx == shift.x as int && sy == shift.y as int,
                    shift_in_range(sc, sx, sy),
                    i <= v@.len(),
                    is_background ==> polygons_view(backgrounds@) == start + shift_polygons(pv.take(i as int), sc, sx, sy)
                        && polygons_view(buildings@) == other_bl,
                    !is_background ==> polygons_view(buildings@) == start + shift_polygons(pv.take(i as int), sc, sx, sy)
                        && polygons_view(backgrounds@) == other_bg,
                decreases v@.len() - i,
            {
                assert(pv[i as int] == v@[i as int]@);
                let moved = offset_polygon(&v[i], scale, shift);
                assert(pv.take(i + 1) =~= pv.take(i as int).push(pv[i as int]));
                if is_background {
                    let ghost before = polygons_view(backgrounds@);
                    backgrounds.push(moved);
                    assert(polygons_view(backgrounds@) =~= before.push(moved@));
                } else {
                    let ghost before = polygons_view(buildings@);
                    buildings.push(moved);
                    assert(polygons_view(buildings@) =~= before.push(moved@));
                }
                assert(shift_polygons(pv.take(i + 1), sc, sx, sy)
                    =~= shift_polygons(pv.take(i as int), sc, sx, sy).push(shift_polygon(pv[i as int], sc, sx, sy)));
                i += 1;
            }
            assert(pv.take(v@.len() as int) =~= pv);
            assert(polygons_view(backgrounds@) =~= polygons_view(old(backgrounds)@) + match payload@ {
                SpecPayload::Background(w) => shift_polygons(w, sc, sx, sy),
                _ => Seq::empty(),
            });
            assert(polygons_view(buildings@) =~= polygons_view(old(buildings)@) + match payload@ {
                SpecPayload::Buildings(w) => shift_polygons(w, sc, sx, sy),
                _ => Seq::empty(),
            });
            assert(roads_view(roads@) =~= roads_view(old(roads)@) + Seq::<SpecRoad>::empty());
        },
        LayerPayload::Roads(v) => {
            let ghost rv = roads_view(v@);
            let ghost start = roads_view(roads@);
            let mut i: usize = 0;
            while i < v.len()
                invariant
                    roads_in_tile_range(rv),
                    rv == roads_view(v@),
                    sc == scale as int && sx == shift.x as int && sy == shift.y as int,
                    shift_in_range(sc, sx, sy),
                    i <= v@.len(),
                    roads_view(roads@) == start + shift_roads(rv.take(i as int), sc, sx, sy),
                decreases v@.len() - i,
            {
                assert(rv[i as int] == v@[i as int]@);
                let moved = offset_road(&v[i], scale, shift);
                assert(rv.take(i + 1) =~= rv.take(i as int).push(rv[i as int]));
                let ghost before = roads_view(roads@);
                roads.push(moved);
                assert(roads_view(roads@) =~= before.push(moved@));
                assert(shift_roads(rv.take(i + 1), sc, sx, sy)
                    =~= shift_roads(rv.take(i as int), sc, sx, sy).push(shift_road(rv[i as int], sc, sx, sy)));
                i += 1;
            }
            assert(rv.take(v@.len() as int) =~= rv);
            assert(polygons_view(backgrounds@) =~= polygons_view(old(backgrounds)@) + Seq::<SpecPolygon>::empty());
            assert(polygons_view(buildings@) =~= polygons_view(old(buildings)@) + Seq::<SpecPolygon>::empty());
        },
        LayerPayload::Empty => {
            assert(polygons_view(backgrounds@) =~= polygons_view(old(backgrounds)@) + Seq::<SpecPolygon>::empty());
            assert(polygons_view(buildings@) =~= polygons_view(old(buildings)@) + Seq::<SpecPolygon>::empty());
            assert(roads_view(roads@) =~= roads_view(old(roads)@) + Seq::<SpecRoad>::empty());
        },
    }
}

/// Merges tiles into one scene in world units relative to `origin`
/// (`world - origin`): each tile's local units are scaled by
/// [`tile_to_world_scale`] and shifted by its world origin. The result holds
/// the three layers background, buildings, roads, in tile and layer order.
pub fn merge_tiles_into_scene_relative(tiles: &[&TileSceneData], origin: Point) -> (r: TileSceneData)
    requires
        forall|i: int| 0 <= i < tiles@.len() ==> scene_in_tile_range(#[trigger] tiles@[i]@),
        origin_in_range(origin),
    ensures
        r@ == merged_scene(scenes_view(tiles@), origin),
{
    let ghost ts = scenes_view(tiles@);
    let mut backgrounds: Vec<PolygonFeature> = Vec::new();
    let mut buildings: Vec<PolygonFeature> = Vec::new();
    let mut roads: Vec<RoadFeature> = Vec::new();
    let mut ti: usize = 0;
    assert(ts.take(0) =~= Seq::<SpecScene>::empty());
    while ti < tiles.len()
        invariant
            ts == scenes_view(tiles@),
            forall|i: int| 0 <= i < tiles@.len() ==> scene_in_tile_range(#[trigger] tiles@[i]@),
            origin_in_range(origin),
            ti <= tiles@.len(),
            polygons_view(backgrounds@) == merged_background(ts.take(ti as int), origin),
            polygons_view(buildings@) == merged_buildings(ts.take(ti as int), origin),
            roads_view(roads@) == merged_roads(ts.take(ti as int), origin),
        decreases tiles@.len() - ti,
    {
        let tile: &TileSceneData = tiles[ti];
        let ghost t = tile@;
        assert(ts[ti as int] == t);
        assert(scene_in_tile_range(t));
        let scale = tile_to_world_scale(tile.tile_id.z) as i64;
        let tile_origin = tile_world_origin(tile.tile_id);
        let shift = Point { x: tile_origin.x - origin.x, y: tile_origin.y - origin.y };
        let ghost (sx, sy) = tile_shift(t.tile_id, origin);
        assert(shift.x == sx && shift.y == sy);
        assert(shift_in_range(scale as int, sx, sy));
        let ghost bg0 = polygons_view(backgrounds@);
        let ghost bl0 = polygons_view(buildings@);
        let ghost rd0 = roads_view(roads@);
        let mut li: usize = 0;
        assert(t.layers.take(0) =~= Seq::<SpecLayerData>::empty());
        while li < tile.layers.len()
            invariant
                t == tile@,
                scene_in_tile_range(t),
                shift_in_range(scale as int, sx, sy),
                shift.x == sx && shift.y == sy,
                li <= t.layers.len(),
                polygons_view(backgrounds@) == bg0 + layers_background(t.layers.take(li as int), scale as int, sx, sy),
                polygons_view(buildings@) == bl0 + layers_buildings(t.layers.take(li as int), scale as int, sx, sy),
                roads_view(roads@) == rd0 + layers_roads(t.layers.take(li as int), scale as int, sx, sy),
            decreases t.layers.len() - li,
        {
            let layer = &tile.layers[li];
            assert(t.layers[li as int] == layer@);
            assert(payload_in_tile_range(t.layers[li as int].payload));
            merge_layer_payload(&layer.payload, scale, shift, &mut backgrounds, &mut buildings, &mut roads);
            assert(t.layers.take(li + 1).drop_last() =~= t.layers.take(li as int));
            assert(t.layers.take(li + 1).last() == layer@);
            assert(polygons_view(backgrounds@) =~= bg0 + layers_background(t.layers.take(li + 1), scale as int, sx, sy));
            assert(polygons_view(buildings@) =~= bl0 + layers_buildings(t.layers.take(li + 1), scale as int, sx, sy));
            assert(roads_view(roads@) =~= rd0 + layers_roads(t.layers.take(li + 1), scale as int, sx, sy));
            li += 1;
        }
        assert(t.layers.take(t.layers.len() as int) =~= t.layers);
        assert(ts.take(ti + 1).drop_last() =~= ts.take(ti as int));
        assert(ts.take(ti + 1).last() == t);
        ti += 1;
    }
    assert(ts.take(tiles@.len() as int) =~= ts);
    build_three_layer_scene(TileId::new(0, 0, 0), backgrounds, buildings, roads)
}

/// Merges tiles into one scene in absolute world units.
pub fn merge_tiles_into_scene(tiles: &[&TileSceneData]) -> (r: TileSceneData)
    requires
        forall|i: int| 0 <= i < tiles@.len() ==> scene_in_tile_range(#[trigger] tiles@[i]@),
    ensures
        r@ == merged_scene(scenes_view(tiles@), Point { x: 0, y: 0 }),
{
    merge_tiles_into_scene_relative(tiles, Point { x: 0, y: 0 })
}

proof fn lemma_tile_origin_bounds(t: TileId)
    ensures
        0 <= t.x * tile_span(t.z) <= 0x0400_0000_0000_0000,
        0 <= t.y * tile_span(t.z) <= 0x0400_0000_0000_0000,
        1 <= tile_scale(t.z) <= 16384,
{
    lemma_pow2_bounds(zoom_gap(t.z));
    let span = tile_span(t.z);
    assert(span <= 67_108_864);
    assert(t.x * span <= 0xffff_ffff * 67_108_864) by (nonlinear_arith)
        requires
            t.x <= 0xffff_ffff,
            span <= 67_108_864,
    ;
    assert(t.y * span <= 0xffff_ffff * 67_108_864) by (nonlinear_arith)
        requires
            t.y <= 0xffff_ffff,
            span <= 67_108_864,
    ;
}

/// Absolute world placement bounds: a tile's scale and world origin.
pub open spec fn absolute_in_range(scale: int, sx: int, sy: int) -> bool {
    &&& 1 <= scale <= 16384
    &&& 0 <= sx <= 0x0400_0000_0000_0000
    &&& 0 <= sy <= 0x0400_0000_0000_0000
}

proof fn lemma_shift_point_relative(p: Point, scale: int, sx: int, sy: int, o: Point)
    requires
        in_tile_range(p),
        absolute_in_range(scale, sx, sy),
        origin_in_range(o),
    ensures
        shift_point(shift_point(p, scale, sx, sy), 1, -o.x, -o.y) == shift_point(p, scale, sx - o.x, sy - o.y),
{
    assert(-0x8000_0000 * 16384 <= p.x * scale <= 0x8000_0000 * 16384) by (nonlinear_arith)
        requires
            -0x8000_0000 <= p.x <= 0x8000_0000,
            1 <= scale <= 16384,
    ;
    assert(-0x8000_0000 * 16384 <= p.y * scale <= 0x8000_0000 * 16384) by (nonlinear_arith)
        requires
            -0x8000_0000 <= p.y <= 0x8000_0000,
            1 <= scale <= 16384,
    ;
}

proof fn lemma_shift_points_relative(ps: Seq<Point>, scale: int, sx: int, sy: int, o: Point)
    requires
        points_in_tile_range(ps),
        absolute_in_range(scale, sx, sy),
        origin_in_range(o),
    ensures
        shift_points(shift_points(ps, scale, sx, sy), 1, -o.x, -o.y) == shift_points(ps, scale, sx - o.x, sy - o.y),
{
    assert forall|k: int| 0 <= k < ps.len() implies #[trigger] shift_points(shift_points(ps, scale, sx, sy), 1, -o.x, -o.y)[k]
        == shift_points(ps, scale, sx - o.x, sy - o.y)[k] by {
        lemma_shift_point_relative(ps[k], scale, sx, sy, o);
    }
    assert(shift_points(shift_points(ps, scale, sx, sy), 1, -o.x, -o.y) =~= shift_points(ps, scale, sx - o.x, sy - o.y));
}

proof fn lemma_shift_polygons_relative(v: Seq<SpecPolygon>, scale: int, sx: int, sy: int, o: Point)
    requires
        polygons_in_tile_range(v),
        absolute_in_range(scale, sx, sy),
        origin_in_range(o),
    ensures
        shift_polygons(shift_polygons(v, scale, sx, sy), 1, -o.x, -o.y) == shift_polygons(v, scale, sx - o.x, sy - o.y),
{
    assert forall|k: int| 0 <= k < v.len() implies #[trigger] shift_polygons(shift_polygons(v, scale, sx, sy), 1, -o.x, -o.y)[k]
        == shift_polygons(v, scale, sx - o.x, sy - o.y)[k] by {
        let p = v[k];
        assert(polygon_in_tile_range(p));
        let twice = shift_polygon(shift_polygon(p, scale, sx, sy), 1, -o.x, -o.y);
        let once = shift_polygon(p, scale, sx - o.x, sy - o.y);
        assert forall|j: int| 0 <= j < p.rings.len() implies #[trigger] twice.rings[j] == once.rings[j] by {
            assert(points_in_tile_range(p.rings[j].points));
            lemma_shift_points_relative(p.rings[j].points, scale, sx, sy, o);
        }
        assert(twice.rings =~= once.rings);
    }
    assert(shift_polygons(shift_polygons(v, scale, sx, sy), 1, -o.x, -o.y) =~= shift_polygons(v, scale, sx - o.x, sy
        - o.y));
}

proof fn lemma_shift_roads_relative(v: Seq<SpecRoad>, scale: int, sx: int, sy: int, o: Point)
    requires
        roads_in_tile_range(v),
        absolute_in_range(scale, sx, sy),
        origin_in_range(o),
    ensures
        shift_roads(shift_roads(v, scale, sx, sy), 1, -o.x, -o.y) == shift_roads(v, scale, sx - o.x, sy - o.y),
{
    assert forall|k: int| 0 <= k < v.len() implies #[trigger] shift_roads(shift_roads(v, scale, sx, sy), 1, -o.x, -o.y)[k]
        == shift_roads(v, scale, sx - o.x, sy - o.y)[k] by {
        assert(points_in_tile_range(v[k].points));
        lemma_shift_points_relative(v[k].points, scale, sx, sy, o);
    }
    assert(shift_roads(shift_roads(v, scale, sx, sy), 1, -o.x, -o.y) =~= shift_roads(v, scale, sx - o.x, sy - o.y));
}

proof fn lemma_layers_relative(ls: Seq<SpecLayerData>, scale: int, sx: int, sy: int, o: Point)
    requires
        forall|k: int| 0 <= k < ls.len() ==> payload_in_tile_range(#[trigger] ls[k].payload),
        absolute_in_range(scale, sx, sy),
        origin_in_range(o),
    ensures
        layers_background(ls, scale, sx - o.x, sy - o.y) == shift_polygons(layers_background(ls, scale, sx, sy), 1,
            -o.x, -o.y),
        layers_buildings(ls, scale, sx - o.x, sy - o.y) == shift_polygons(layers_buildings(ls, scale, sx, sy), 1,
            -o.x, -o.y),
        layers_roads(ls, scale, sx - o.x, sy - o.y) == shift_roads(layers_roads(ls, scale, sx, sy), 1, -o.x, -o.y),
    decreases ls.len(),
{
    if ls.len() > 0 {
        let init = ls.drop_last();
        assert forall|k: int| 0 <= k < init.len() implies payload_in_tile_range(#[trigger] init[k].payload) by {
            assert(init[k] == ls[k]);
        }
        lemma_layers_relative(init, scale, sx, sy, o);
        let pl = ls.last().payload;
        assert(payload_in_tile_range(ls[ls.len() - 1].payload));
        let bg = layers_background(init, scale, sx, sy);
        let bl = layers_buildings(init, scale, sx, sy);
        let rd = layers_roads(init, scale, sx, sy);
        let (nbg, nbl, nrd) = match pl {
            SpecPayload::Background(v) => {
                lemma_shift_polygons_relative(v, scale, sx, sy, o);
                (shift_polygons(v, scale, sx, sy), Seq::<SpecPolygon>::empty(), Seq::<SpecRoad>::empty())
            },
            SpecPayload::Buildings(v) => {
                lemma_shift_polygons_relative(v, scale, sx, sy, o);
                (Seq::<SpecPolygon>::empty(), shift_polygons(v, scale, sx, sy), Seq::<SpecRoad>::empty())
            },
            SpecPayload::Roads(v) => {
                lemma_shift_roads_relative(v, scale, sx, sy, o);
                (Seq::<SpecPolygon>::empty(), Seq::<SpecPolygon>::empty(), shift_roads(v, scale, sx, sy))
            },
            SpecPayload::Empty => (Seq::<SpecPolygon>::empty(), Seq::<SpecPolygon>::empty(), Seq::<SpecRoad>::empty()),
        };
        assert(layers_background(ls, scale, sx, sy) == bg + nbg);
        assert(layers_buildings(ls, scale, sx, sy) == bl + nbl);
        assert(layers_roads(ls, scale, sx, sy) == rd + nrd);
        assert(shift_polygons(bg + nbg, 1, -o.x, -o.y) =~= shift_polygons(bg, 1, -o.x, -o.y) + shift_polygons(nbg, 1,
            -o.x, -o.y));
        assert(shift_polygons(bl + nbl, 1, -o.x, -o.y) =~= shift_polygons(bl, 1, -o.x, -o.y) + shift_polygons(nbl, 1,
            -o.x, -o.y));
        assert(shift_roads(rd + nrd, 1, -o.x, -o.y) =~= shift_roads(rd, 1, -o.x, -o.y) + shift_roads(nrd, 1, -o.x,
            -o.y));
        assert(shift_polygons(Seq::<SpecPolygon>::empty(), 1, -o.x, -o.y) =~= Seq::<SpecPolygon>::empty());
        assert(shift_roads(Seq::<SpecRoad>::empty(), 1, -o.x, -o.y) =~= Seq::<SpecRoad>::empty());
    } else {
        assert(shift_polygons(Seq::<SpecPolygon>::empty(), 1, -o.x, -o.y) =~= Seq::<SpecPolygon>::empty());
        assert(shift_roads(Seq::<SpecRoad>::empty(), 1, -o.x, -o.y) =~= Seq::<SpecRoad>::empty());
    }
}

/// Merging relative to a camera origin gives the absolute world-space
/// merge with the origin subtracted from every point (`world - origin`);
/// features, their order and everything but their points are the same.
pub proof fn lemma_relative_merge_subtracts_origin(tiles: Seq<SpecScene>, origin: Point)
    requires
        forall|i: int| 0 <= i < tiles.len() ==> scene_in_tile_range(#[trigger] tiles[i]),
        origin_in_range(origin),
    ensures
        merged_background(tiles, origin) == shift_polygons(
            merged_background(tiles, Point { x: 0, y: 0 }),
            1,
            -origin.x,
            -origin.y,
        ),
        merged_buildings(tiles, origin) == shift_polygons(
            merged_buildings(tiles, Point { x: 0, y: 0 }),
            1,
            -origin.x,
            -origin.y,
        ),
        merged_roads(tiles, origin) == shift_roads(merged_roads(tiles, Point { x: 0, y: 0 }), 1, -origin.x, -origin.y),
    decreases tiles.len(),
{
    let zero = Point { x: 0, y: 0 };
    let o = origin;
    if tiles.len() > 0 {
        let init = tiles.drop_last();
        assert forall|i: int| 0 <= i < init.len() implies scene_in_tile_range(#[trigger] init[i]) by {
            assert(init[i] == tiles[i]);
        }
        lemma_relative_merge_subtracts_origin(init, origin);
        let t = tiles.last();
        assert(scene_in_tile_range(tiles[tiles.len() - 1]));
        lemma_tile_origin_bounds(t.tile_id);
        let scale = tile_scale(t.tile_id.z) as int;
        let (ax, ay) = tile_shift(t.tile_id, zero);
        let (rx, ry) = tile_shift(t.tile_id, o);
        assert(rx == ax - o.x && ry == ay - o.y);
        assert(absolute_in_range(scale, ax, ay));
        lemma_layers_relative(t.layers, scale, ax, ay, o);
        let bg = merged_background(init, zero);
        let bl = merged_buildings(init, zero);
        let rd = merged_roads(init, zero);
        let lbg = layers_background(t.layers, scale, ax, ay);
        let lbl = layers_buildings(t.layers, scale, ax, ay);
        let lrd = layers_roads(t.layers, scale, ax, ay);
        assert(shift_polygons(bg + lbg, 1, -o.x, -o.y) =~= shift_polygons(bg, 1, -o.x, -o.y) + shift_polygons(lbg, 1,
            -o.x, -o.y));
        assert(shift_polygons(bl + lbl, 1, -o.x, -o.y) =~= shift_polygons(bl, 1, -o.x, -o.y) + shift_polygons(lbl, 1,
            -o.x, -o.y));
        assert(shift_roads(rd + lrd, 1, -o.x, -o.y) =~= shift_roads(rd, 1, -o.x, -o.y) + shift_roads(lrd, 1, -o.x,
            -o.y));
    } else {
        assert(shift_polygons(Seq::<SpecPolygon>::empty(), 1, -o.x, -o.y) =~= Seq::<SpecPolygon>::empty());
        assert(shift_roads(Seq::<SpecRoad>::empty(), 1, -o.x, -o.y) =~= Seq::<SpecRoad>::empty());
    }
}

/// The absolute merge places each tile-local point `p` of tile `t` at
/// `p * tile_to_world_scale(t.z) + tile_world_origin(t)`, exactly (no
/// wrapping): the shift of a tile relative to origin `(0, 0)` is its world
/// origin, and scaling and shifting a tile-local point stays in range.
pub proof fn lemma_absolute_merge_places_points(t: TileId, p: Point)
    requires
        in_tile_range(p),
    ensures
        tile_shift(t, Point { x: 0, y: 0 }) == (t.x * tile_span(t.z), t.y * tile_span(t.z)),
        shift_point(p, tile_scale(t.z) as int, t.x * tile_span(t.z), t.y * tile_span(t.z)).x == p.x * tile_scale(t.z)
            + t.x * tile_span(t.z),
        shift_point(p, tile_scale(t.z) as int, t.x * tile_span(t.z), t.y * tile_span(t.z)).y == p.y * tile_scale(t.z)
            + t.y * tile_span(t.z),
{
    lemma_tile_origin_bounds(t);
    let s = tile_scale(t.z) as int;
    assert(-0x8000_0000 * 16384 <= p.x * s <= 0x8000_0000 * 16384) by (nonlinear_arith)
        requires
            -0x8000_0000 <= p.x <= 0x8000_0000,
            1 <= s <= 16384,
    ;
    assert(-0x8000_0000 * 16384 <= p.y * s <= 0x8000_0000 * 16384) by (nonlinear_arith)
        requires
            -0x8000_0000 <= p.y <= 0x8000_0000,
            1 <= s <= 16384,
    ;
}

} // verus!
