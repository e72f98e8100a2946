//! From a decoded vector tile to road and polygon features.
use vstd::prelude::*;

use crate::feature::{
    Point, PolygonFeature, PolygonRing, RingRole, RoadFeature, SpecPolygon, SpecRing, SpecRoad,
    polygons_view, rings_view, roads_view,
};
use crate::geometry::{
    decode_geometry_linestrings, decode_geometry_rings, flush_path, lemma_geometry_nonempty, geometry_paths, next_x, next_y,
    paths_view, run_geometry,
};
use crate::protobuf::TileDecodeError;
use crate::text::str_eq;
use crate::vector_tile::{
    decode_tile, features_view, strings_view, tile_layers, values_view, MvtFeature, MvtLayer,
    SpecFeature, SpecLayer,
};

verus! {

/// The features of one tile, split by geometry type.
pub struct DecodedMvtTile {
    pub roads: Vec<RoadFeature>,
    pub polygons: Vec<PolygonFeature>,
}

/// The class of a feature: the string value of its first `class` tag, or
/// the layer name when no tag pair names a `class` key with a string value.
pub open spec fn class_from(layer: SpecLayer, tags: Seq<u32>, i: nat) -> Seq<char>
    decreases tags.len() - i,
{
    if i + 1 >= tags.len() {
        layer.name
    } else {
        let k = tags[i as int] as int;
        let v = tags[i + 1int] as int;
        if k < layer.keys.len() && layer.keys[k] == "class"@ && v < layer.values.len()
            && layer.values[v] is Some {
            layer.values[v].unwrap()
        } else {
            class_from(layer, tags, i + 2)
        }
    }
}

pub open spec fn feature_class(layer: SpecLayer, tags: Seq<u32>) -> Seq<char> {
    class_from(layer, tags, 0)
}

/// Reads the feature's `class` tag (see [`feature_class`]).
pub fn decode_feature_class(layer: &MvtLayer, feature: &MvtFeature) -> (r: String)
    ensures
        r@ == feature_class(layer@, feature.tags@),
{
    let tags = &feature.tags;
    let mut i: usize = 0;
    while tags.len() - i > 1
        invariant
            tags@ == feature.tags@,
            i <= tags@.len(),
            class_from(layer@, tags@, i as nat) == feature_class(layer@, tags@),
        decreases tags@.len() - i,
    {
        let key_idx = tags[i] as usize;
        let val_idx = tags[i + 1] as usize;
        if key_idx < layer.keys.len() {
            let key = &layer.keys[key_idx];
            assert(layer@.keys[key_idx as int] == key@);
            if str_eq(key.as_str(), "class") {
                if val_idx < layer.values.len() {
                    assert(layer@.values[val_idx as int] == layer.values@[val_idx as int]@);
                    if let Some(class_name) = &layer.values[val_idx].string_value {
                        assert(layer@.values[val_idx as int] == Some(class_name@));
                        let c = class_name.clone();
                        return c;
                    }
                }
            }
        }
        i += 2;
    }
    layer.name.clone()
}

/// Twice the signed (shoelace) area of a ring, summed over its first `i` edges.
pub open spec fn area2_prefix(ring: Seq<Point>, i: nat) -> int
    decreases i,
{
    if i == 0 || ring.len() == 0 {
        0
    } else {
        let k = (i - 1) as int;
        let j = (k + 1) % (ring.len() as int);
        area2_prefix(ring, (i - 1) as nat) + ring[k].x * ring[j].y - ring[j].x * ring[k].y
    }
}

/// Twice the signed area of a closed ring: positive for one winding,
/// negative for the other, zero for a degenerate ring.
pub open spec fn area2(ring: Seq<Point>) -> int {
    area2_prefix(ring, ring.len())
}

pub open spec fn in_i32(p: Point) -> bool {
    i32::MIN <= p.x <= i32::MAX && i32::MIN <= p.y <= i32::MAX
}

pub open spec fn ring_in_i32(ring: Seq<Point>) -> bool {
    forall|k: int| 0 <= k < ring.len() ==> in_i32(#[trigger] ring[k])
}

proof fn lemma_cross_bound(a: int, b: int, c: int, d: int)
    requires
        -0x8000_0000 <= a <= 0x7fff_ffff,
        -0x8000_0000 <= b <= 0x7fff_ffff,
        -0x8000_0000 <= c <= 0x7fff_ffff,
        -0x8000_0000 <= d <= 0x7fff_ffff,
    ensures
        -0x4000_0000_0000_0000 <= a * b <= 0x4000_0000_0000_0000,
        -0x4000_0000_0000_0000 <= c * d <= 0x4000_0000_0000_0000,
        -0x8000_0000_0000_0000 <= a * b - c * d <= 0x8000_0000_0000_0000,
{
    assert(-0x4000_0000_0000_0000 <= a * b <= 0x4000_0000_0000_0000) by (nonlinear_arith)
        requires
            -0x8000_0000 <= a <= 0x7fff_ffff,
            -0x8000_0000 <= b <= 0x7fff_ffff,
    ;
    assert(-0x4000_0000_0000_0000 <= c * d <= 0x4000_0000_0000_0000) by (nonlinear_arith)
        requires
            -0x8000_0000 <= c <= 0x7fff_ffff,
            -0x8000_0000 <= d <= 0x7fff_ffff,
    ;
}

/// Twice the signed area of a ring of `i32`-range points, computed exactly.
fn ring_double_signed_area(ring: &Vec<Point>) -> (r: i128)
    requires
        ring_in_i32(ring@),
    ensures
        r == area2(ring@),
{
    let n = ring.len();
    let mut area: i128 = 0;
    let mut i: usize = 0;
    while i < n
        invariant
            n == ring@.len(),
            ring_in_i32(ring@),
            i <= n,
            area == area2_prefix(ring@, i as nat),
            -0x8000_0000_0000_0000 * i <= area <= 0x8000_0000_0000_0000 * i,
        decreases n - i,
    {
        let j = (i + 1) % n;
        let a = ring[i];
        let b = ring[j];
        proof {
            assert(in_i32(ring@[i as int]));
            assert(in_i32(ring@[j as int]));
            lemma_cross_bound(a.x as int, b.y as int, b.x as int, a.y as int);
        }
        let cross = (a.x as i128) * (b.y as i128) - (b.x as i128) * (a.y as i128);
        area = area + cross;
        i += 1;
    }
    area
}

/// The classified rings of a polygon after the first `rings.len()` raw
/// rings, and the winding of the polygon part they belong to.
///
/// Rings of fewer than three points and rings of zero area are dropped.
/// A ring whose winding is opposite to the current part is a hole; any other
/// ring starts a new part as an exterior ring.
pub open spec fn classify_state(rings: Seq<Seq<Point>>) -> (Seq<SpecRing>, int)
    decreases rings.len(),
{
    if rings.len() == 0 {
        (Seq::empty(), 0)
    } else {
        let (cls, reference) = classify_state(rings.drop_last());
        let ring = rings.last();
        if ring.len() < 3 || area2(ring) == 0 {
            (cls, reference)
        } else {
            let w: int = if area2(ring) < 0 { -1 } else { 1 };
            if cls.len() == 0 || reference == 0 {
                (cls.push(SpecRing { points: ring, role: RingRole::Exterior }), w)
            } else if reference * w < 0 {
                (cls.push(SpecRing { points: ring, role: RingRole::Hole }), reference)
            } else {
                (cls.push(SpecRing { points: ring, role: RingRole::Exterior }), w)
            }
        }
    }
}

/// Ring classification by Mapbox winding rules: a single ring is exterior
/// as it is; otherwise see [`classify_state`].
pub open spec fn classify_rings(rings: Seq<Seq<Point>>) -> Seq<SpecRing> {
    if rings.len() == 0 {
        Seq::empty()
    } else if rings.len() == 1 {
        seq![SpecRing { points: rings[0], role: RingRole::Exterior }]
    } else {
        classify_state(rings).0
    }
}

/// The winding of a ring: the sign of its signed area.
pub open spec fn winding(ring: Seq<Point>) -> int {
    if area2(ring) < 0 {
        -1
    } else if area2(ring) > 0 {
        1
    } else {
        0
    }
}

/// The winding of the polygon part that classified rings `c` end in: that
/// of the latest exterior ring, 0 when there is none.
pub open spec fn part_winding(c: Seq<SpecRing>) -> int
    decreases c.len(),
{
    if c.len() == 0 {
        0
    } else if c.last().role == RingRole::Exterior {
        winding(c.last().points)
    } else {
        part_winding(c.drop_last())
    }
}

/// What every prefix of the classification keeps: the part winding is
/// that of the latest exterior ring, the first ring is exterior, no ring is
/// degenerate, and after the first a ring is a hole exactly when it winds
/// otherwise than the part it follows.
pub open spec fn classification_holds(c: Seq<SpecRing>) -> bool {
    &&& c.len() > 0 ==> c[0].role == RingRole::Exterior && part_winding(c) != 0
    &&& forall|i: int| 0 <= i < c.len() ==> (#[trigger] c[i]).points.len() >= 3 && winding(c[i].points) != 0
    &&& forall|i: int| 0 < i < c.len() ==> ((#[trigger] c[i]).role == RingRole::Hole) == (winding(c[i].points)
        != part_winding(c.take(i)))
}

proof fn lemma_part_winding_range(c: Seq<SpecRing>)
    ensures
        -1 <= part_winding(c) <= 1,
    decreases c.len(),
{
    if c.len() > 0 && c.last().role != RingRole::Exterior {
        lemma_part_winding_range(c.drop_last());
    }
}

#[verifier::spinoff_prover]
proof fn lemma_classify_state_holds(rings: Seq<Seq<Point>>)
    ensures
        classification_holds(classify_state(rings).0),
        classify_state(rings).1 == part_winding(classify_state(rings).0),
    decreases rings.len(),
{
    if rings.len() > 0 {
        lemma_classify_state_holds(rings.drop_last());
        let (cls, reference) = classify_state(rings.drop_last());
        let (next, _) = classify_state(rings);
        if next.len() > cls.len() {
            let x = next.last();
            assert(next =~= cls.push(x));
            assert(next.drop_last() =~= cls);
            assert forall|i: int| 0 <= i < cls.len() implies #[trigger] next.take(i) =~= cls.take(i) && next[i]
                == cls[i] by {}
            assert(next.take(cls.len() as int) =~= cls);
            let ring = rings.last();
            assert(x.points == ring);
            assert(ring.len() >= 3 && area2(ring) != 0);
            assert(winding(ring) != 0);
            if cls.len() > 0 {
                assert(next[0] == cls[0]);
                assert(reference != 0);
            }
            assert(next[cls.len() as int] == x);
            assert forall|i: int| 0 <= i < next.len() implies (#[trigger] next[i]).points.len() >= 3 && winding(
                next[i].points,
            ) != 0 by {
                if i < cls.len() {
                    assert(cls[i] == next[i]);
                }
            }
            assert forall|i: int| 0 < i < next.len() implies ((#[trigger] next[i]).role == RingRole::Hole) == (
            winding(next[i].points) != part_winding(next.take(i))) by {
                if i < cls.len() {
                    assert(cls[i] == next[i]);
                    assert(next.take(i) =~= cls.take(i));
                } else {
                    assert(next.take(i) =~= cls);
                    lemma_part_winding_range(cls);
                    assert(reference == 1 || reference == -1);
                    if area2(ring) < 0 {
                        assert(winding(ring) == -1);
                    } else {
                        assert(winding(ring) == 1);
                    }
                }
            }
        }
    }
}

/// Ring classification follows the winding rule: the first ring is
/// exterior; after it, a ring is a hole exactly when its winding is opposite
/// to that of the latest exterior ring before it, and otherwise starts a new
/// polygon part. When there are several rings, degenerate ones (fewer than
/// three points, or zero area) are dropped.
pub proof fn lemma_classified_rings_follow_winding(rings: Seq<Seq<Point>>)
    ensures
        classify_rings(rings).len() > 0 ==> classify_rings(rings)[0].role == RingRole::Exterior,
        forall|i: int| 0 < i < classify_rings(rings).len() ==> (#[trigger] classify_rings(rings)[i].role
            == RingRole::Hole) == (winding(classify_rings(rings)[i].points) == -part_winding(
            classify_rings(rings).take(i),
        )),
        rings.len() >= 2 ==> forall|i: int| 0 <= i < classify_rings(rings).len() ==> (
        #[trigger] classify_rings(rings)[i]).points.len() >= 3 && winding(classify_rings(rings)[i].points) != 0,
{
    let c = classify_rings(rings);
    if rings.len() >= 2 {
        lemma_classify_state_holds(rings);
        assert forall|i: int| 0 < i < c.len() implies (#[trigger] c[i].role == RingRole::Hole) == (winding(
            c[i].points,
        ) == -part_winding(c.take(i))) by {
            lemma_part_winding_of_prefix(c, i);
        }
    }
}

proof fn lemma_part_winding_of_prefix(c: Seq<SpecRing>, i: int)
    requires
        classification_holds(c),
        0 < i < c.len(),
    ensures
        part_winding(c.take(i)) == 1 || part_winding(c.take(i)) == -1,
        winding(c[i].points) == 1 || winding(c[i].points) == -1,
    decreases i,
{
    let p = c.take(i);
    assert(c[i].points.len() >= 3 && winding(c[i].points) != 0);
    assert(p.last() == c[i - 1]);
    assert(c[i - 1].points.len() >= 3 && winding(c[i - 1].points) != 0);
    if p.last().role != RingRole::Exterior {
        assert(i - 1 > 0);
        assert(p.drop_last() =~= c.take(i - 1));
        lemma_part_winding_of_prefix(c, i - 1);
    }
}

/// The ring with its first point moved to the end: the same closed ring,
/// started one vertex later.
pub open spec fn rotate_ring(ring: Seq<Point>) -> Seq<Point> {
    ring.skip(1).push(ring[0])
}

proof fn lemma_rotate_prefix(ring: Seq<Point>, i: nat)
    requires
        ring.len() >= 2,
        i <= ring.len() - 1,
    ensures
        area2_prefix(rotate_ring(ring), i) == area2_prefix(ring, i + 1) - area2_prefix(ring, 1),
    decreases i,
{
    let n = ring.len() as int;
    let rot = rotate_ring(ring);
    assert(rot.len() == n);
    if i > 0 {
        lemma_rotate_prefix(ring, (i - 1) as nat);
        let k = (i - 1) as int;
        assert(rot[k] == ring[k + 1]);
        if k + 1 < n - 1 {
            vstd::arithmetic::div_mod::lemma_small_mod((k + 1) as nat, n as nat);
            vstd::arithmetic::div_mod::lemma_small_mod((k + 2) as nat, n as nat);
            assert(rot[k + 1] == ring[k + 2]);
        } else {
            assert(k + 1 == n - 1);
            vstd::arithmetic::div_mod::lemma_small_mod((k + 1) as nat, n as nat);
            assert((k + 2) % n == 0);
            assert(rot[k + 1] == ring[0]);
        }
    } else {
        assert(area2_prefix(ring, 1) == area2_prefix(ring, 1));
    }
}

/// The doubled signed area of a ring sums the cross terms of all its edges,
/// the closing edge included, so it does not depend on which vertex the
/// ring starts at.
pub proof fn lemma_area2_ignores_start_vertex(ring: Seq<Point>)
    requires
        ring.len() >= 1,
    ensures
        area2(rotate_ring(ring)) == area2(ring),
{
    let n = ring.len() as int;
    let rot = rotate_ring(ring);
    if n == 1 {
        assert(rot =~= ring);
    } else {
        lemma_rotate_prefix(ring, (n - 1) as nat);
        assert(rot[n - 1] == ring[0]);
        assert((n - 1 + 1) % n == 0);
        assert(rot[0] == ring[1]);
        vstd::arithmetic::div_mod::lemma_small_mod(1, n as nat);
        assert(area2_prefix(ring, 1) == ring[0].x * ring[1].y - ring[1].x * ring[0].y) by {
            assert(area2_prefix(ring, 0) == 0);
        }
    }
}

/// The axis-aligned square with lower-left corner `(x, y)` and side `s`,
/// listed counter-clockwise (in x-right, y-up axes) from that corner.
pub open spec fn square_ccw(x: i64, y: i64, s: i64) -> Seq<Point> {
    seq![
        Point { x, y },
        Point { x: (x + s) as i64, y },
        Point { x: (x + s) as i64, y: (y + s) as i64 },
        Point { x, y: (y + s) as i64 },
    ]
}

/// The same square listed the other way round.
pub open spec fn square_cw(x: i64, y: i64, s: i64) -> Seq<Point> {
    seq![
        Point { x, y },
        Point { x, y: (y + s) as i64 },
        Point { x: (x + s) as i64, y: (y + s) as i64 },
        Point { x: (x + s) as i64, y },
    ]
}

/// An axis-aligned square of side `s`, anywhere, has doubled area `2 s²`
/// when listed one way round and `-2 s²` the other way.
pub proof fn lemma_square_area2(x: i64, y: i64, s: i64)
    requires
        i32::MIN <= x <= i32::MAX,
        i32::MIN <= y <= i32::MAX,
        0 <= s <= i32::MAX,
    ensures
        area2(square_ccw(x, y, s)) == 2 * s * s,
        area2(square_cw(x, y, s)) == -2 * s * s,
{
    let a = square_ccw(x, y, s);
    let b = square_cw(x, y, s);
    reveal_with_fuel(area2_prefix, 5);
    assert(0int % 4 == 0 && 1int % 4 == 1 && 2int % 4 == 2 && 3int % 4 == 3 && 4int % 4 == 0);
    let (xi, yi, si) = (x as int, y as int, s as int);
    assert(area2_prefix(a, 4) == xi * yi - (xi + si) * yi + (xi + si) * (yi + si) - (xi + si) * yi + (xi + si) * (yi
        + si) - xi * (yi + si) + xi * yi - xi * (yi + si));
    assert(xi * yi - (xi + si) * yi + (xi + si) * (yi + si) - (xi + si) * yi + (xi + si) * (yi + si) - xi * (yi + si)
        + xi * yi - xi * (yi + si) == 2 * si * si) by (nonlinear_arith);
    assert(area2_prefix(b, 4) == xi * (yi + si) - xi * yi + xi * (yi + si) - (xi + si) * (yi + si) + (xi + si) * yi
        - (xi + si) * (yi + si) + (xi + si) * yi - xi * yi);
    assert(xi * (yi + si) - xi * yi + xi * (yi + si) - (xi + si) * (yi + si) + (xi + si) * yi - (xi + si) * (yi + si)
        + (xi + si) * yi - xi * yi == -2 * si * si) by (nonlinear_arith);
}

/// A square polygon with a square hole wound the other way: wherever the
/// two squares lie and whatever their (non-zero) sizes, the first ring is
/// the exterior and the second its hole.
pub proof fn lemma_square_with_opposite_square_is_hole(
    x1: i64,
    y1: i64,
    s1: i64,
    x2: i64,
    y2: i64,
    s2: i64,
)
    requires
        i32::MIN <= x1 <= i32::MAX,
        i32::MIN <= y1 <= i32::MAX,
        1 <= s1 <= i32::MAX,
        i32::MIN <= x2 <= i32::MAX,
        i32::MIN <= y2 <= i32::MAX,
        1 <= s2 <= i32::MAX,
    ensures
        classify_rings(seq![square_ccw(x1, y1, s1), square_cw(x2, y2, s2)]) == seq![
            SpecRing { points: square_ccw(x1, y1, s1), role: RingRole::Exterior },
            SpecRing { points: square_cw(x2, y2, s2), role: RingRole::Hole },
        ],
{
    lemma_square_area2(x1, y1, s1);
    lemma_square_area2(x2, y2, s2);
    assert(2 * s1 * s1 > 0) by (nonlinear_arith)
        requires
            s1 >= 1,
    ;
    assert(-2 * s2 * s2 < 0) by (nonlinear_arith)
        requires
            s2 >= 1,
    ;
    let rings = seq![square_ccw(x1, y1, s1), square_cw(x2, y2, s2)];
    assert(rings.drop_last() =~= seq![square_ccw(x1, y1, s1)]);
    assert(rings.drop_last().drop_last() =~= Seq::<Seq<Point>>::empty());
    let first = SpecRing { points: square_ccw(x1, y1, s1), role: RingRole::Exterior };
    assert(classify_state(Seq::<Seq<Point>>::empty()) == (Seq::<SpecRing>::empty(), 0int));
    assert(area2(square_ccw(x1, y1, s1)) > 0);
    assert(classify_state(rings.drop_last()) == (seq![first], 1int)) by {
        assert(Seq::<SpecRing>::empty().push(first) =~= seq![first]);
    }
    assert(area2(square_cw(x2, y2, s2)) < 0);
    let c = classify_rings(rings);
    assert(c =~= seq![
        SpecRing { points: square_ccw(x1, y1, s1), role: RingRole::Exterior },
        SpecRing { points: square_cw(x2, y2, s2), role: RingRole::Hole },
    ]);
}

pub open spec fn paths_in_i32(rings: Seq<Seq<Point>>) -> bool {
    forall|k: int| 0 <= k < rings.len() ==> ring_in_i32(#[trigger] rings[k])
}

/// Classifies decoded rings into exterior rings and holes (see [`classify_rings`]).
pub fn classify_polygon_rings(raw_rings: Vec<Vec<Point>>) -> (r: Vec<PolygonRing>)
    requires
        paths_in_i32(paths_view(raw_rings@)),
    ensures
        rings_view(r@) == classify_rings(paths_view(raw_rings@)),
{
    let ghost all = paths_view(raw_rings@);
    let total = raw_rings.len();
    let mut raw_rings = raw_rings;
    if total == 0 {
        return Vec::new();
    }
    if total == 1 {
        let only = raw_rings.pop().unwrap();
        let mut out = Vec::new();
        out.push(PolygonRing { points: only, role: RingRole::Exterior });
        assert(rings_view(out@) =~= classify_rings(all));
        return out;
    }

    // Reverse the rings so that popping yields them in their original order.
    let mut pending: Vec<Vec<Point>> = Vec::new();
    while raw_rings.len() > 0
        invariant
            all.len() == total,
            raw_rings@.len() + pending@.len() == total,
            forall|k: int| 0 <= k < raw_rings@.len() ==> #[trigger] raw_rings@[k]@ == all[k],
            forall|k: int| 0 <= k < pending@.len() ==> #[trigger] pending@[k]@ == all[total - 1 - k],
        decreases raw_rings@.len(),
    {
        let ring = raw_rings.pop().unwrap();
        pending.push(ring);
    }

    let mut classified: Vec<PolygonRing> = Vec::new();
    let mut reference_winding: i8 = 0;
    let mut done: usize = 0;
    assert(all.take(0) =~= Seq::<Seq<Point>>::empty());
    while pending.len() > 0
        invariant
            all.len() == total,
            paths_in_i32(all),
            done + pending@.len() == total,
            forall|k: int| 0 <= k < pending@.len() ==> #[trigger] pending@[k]@ == all[total - 1 - k],
            classify_state(all.take(done as int)) == (rings_view(classified@), reference_winding as int),
            -1 <= reference_winding <= 1,
        decreases pending@.len(),
    {
        let ring = pending.pop().unwrap();
        let ghost prefix = all.take(done as int);
        assert(ring@ == all[done as int]);
        assert(all.take(done + 1).drop_last() =~= prefix);
        assert(all.take(done + 1).last() == ring@);
        done += 1;
        if ring.len() < 3 {
            continue;
        }
        proof {
            assert(ring_in_i32(all[(done - 1) as int]));
        }
        let area = ring_double_signed_area(&ring);
        if area == 0 {
            continue;
        }
        let winding: i8 = if area < 0 { -1 } else { 1 };
        let ghost before = rings_view(classified@);
        if classified.len() == 0 || reference_winding == 0 {
            reference_winding = winding;
            classified.push(PolygonRing { points: ring, role: RingRole::Exterior });
        } else if reference_winding != winding {
            classified.push(PolygonRing { points: ring, role: RingRole::Hole });
        } else {
            reference_winding = winding;
            classified.push(PolygonRing { points: ring, role: RingRole::Exterior });
        }
        assert(rings_view(classified@) =~= before.push(classified@.last()@));
    }
    assert(all.take(total as int) =~= all);
    classified
}

proof fn lemma_run_geometry_in_i32(
    g: Seq<u32>,
    at: nat,
    x: i32,
    y: i32,
    pending: nat,
    paths: Seq<Seq<Point>>,
    current: Seq<Point>,
)
    requires
        paths_in_i32(paths),
        ring_in_i32(current),
    ensures
        run_geometry(g, at, x, y, pending, paths, current) matches Some(r) ==> paths_in_i32(r),
    decreases g.len() - at,
{
    let flushed = flush_path(paths, current);
    assert(paths_in_i32(flushed)) by {
        if current.len() > 0 {
            assert forall|k: int| 0 <= k < flushed.len() implies ring_in_i32(#[trigger] flushed[k]) by {
                if k < paths.len() {
                    assert(flushed[k] == paths[k]);
                }
            }
        }
    }
    assert(ring_in_i32(Seq::<Point>::empty()));
    if pending > 0 {
        if at + 1 < g.len() {
            let nx = next_x(g, at as int, x);
            let ny = next_y(g, at as int, y);
            let p = Point { x: nx as i64, y: ny as i64 };
            assert(ring_in_i32(current.push(p))) by {
                assert forall|k: int| 0 <= k < current.push(p).len() implies in_i32(#[trigger] current.push(p)[k]) by {
                    if k < current.len() {
                        assert(current.push(p)[k] == current[k]);
                    }
                }
            }
            lemma_run_geometry_in_i32(g, at + 2, nx, ny, (pending - 1) as nat, paths, current.push(p));
        }
    } else if at < g.len() {
        let cmd = g[at as int];
        let count = (cmd / 8) as nat;
        lemma_run_geometry_in_i32(g, at + 1, x, y, count, flushed, Seq::empty());
        lemma_run_geometry_in_i32(g, at + 1, x, y, count, paths, current);
        lemma_run_geometry_in_i32(g, at + 1, x, y, 0, flushed, Seq::empty());
    }
}

/// Every decoded coordinate lies in the `i32` range the pen moves in.
proof fn lemma_geometry_in_i32(g: Seq<u32>)
    ensures
        geometry_paths(g) matches Some(r) ==> paths_in_i32(r),
{
    assert(ring_in_i32(Seq::<Point>::empty()));
    lemma_run_geometry_in_i32(g, 0, 0, 0, 0, Seq::empty(), Seq::empty());
}

pub open spec fn id_or_zero(id: Option<u64>) -> u64 {
    match id {
        Some(v) => v,
        None => 0,
    }
}

/// The road a line-string feature becomes: its first line string.
pub open spec fn road_of(source_layer: Seq<char>, layer: SpecLayer, f: SpecFeature) -> Option<SpecRoad> {
    match geometry_paths(f.geometry) {
        Some(lines) => Some(SpecRoad {
            id: id_or_zero(f.id),
            class: feature_class(layer, f.tags),
            source_layer,
            points: lines[0],
        }),
        None => None,
    }
}

/// A line-string feature becomes a road exactly when its geometry decodes,
/// and the road's points are exactly the first line string of that
/// geometry (the points before its second MoveTo): later parts of a
/// multi-line geometry are not joined on. The road keeps the feature's id
/// (0 when it has none), its class, and the source layer it came from.
pub proof fn lemma_road_is_first_line_string(source_layer: Seq<char>, layer: SpecLayer, f: SpecFeature)
    ensures
        road_of(source_layer, layer, f) is Some <==> geometry_paths(f.geometry) is Some,
        road_of(source_layer, layer, f) matches Some(r) ==> {
            let lines = geometry_paths(f.geometry)->0;
            &&& lines.len() >= 1
            &&& r.points.len() == lines[0].len()
            &&& forall|k: int| 0 <= k < r.points.len() ==> r.points[k] == lines[0][k]
            &&& lines.len() >= 2 && lines[1].len() > 0 ==> r.points.len() < lines[0].len() + lines[1].len()
            &&& r.id == (if f.id is Some { f.id->0 } else { 0 })
            &&& r.class == feature_class(layer, f.tags)
            &&& r.source_layer == source_layer
        },
{
    lemma_geometry_nonempty(f.geometry);
}

/// The polygon a polygon feature becomes: its classified rings, if any survive.
pub open spec fn polygon_of(source_layer: Seq<char>, layer: SpecLayer, f: SpecFeature) -> Option<SpecPolygon> {
    match geometry_paths(f.geometry) {
        Some(raw) => {
            let rings = classify_rings(raw);
            if rings.len() == 0 {
                None
            } else {
                Some(SpecPolygon {
                    id: id_or_zero(f.id),
                    class: feature_class(layer, f.tags),
                    source_layer,
                    rings,
                })
            }
        },
        None => None,
    }
}

/// Builds the road feature of a line-string feature (see [`road_of`]).
pub fn decode_road_feature(source_layer: &str, layer: &MvtLayer, feature: &MvtFeature) -> (r: Option<RoadFeature>)
    ensures
        match road_of(source_layer@, layer@, feature@) {
            Some(road) => r matches Some(x) && x@ == road,
            None => r is None,
        },
{
    let lines = decode_geometry_linestrings(feature.geometry.as_slice());
    let mut lines = match lines {
        Some(l) => l,
        None => return None,
    };
    proof {
        lemma_geometry_nonempty(feature.geometry@);
    }
    let points = lines.remove(0);
    let id = match feature.id {
        Some(v) => v,
        None => 0,
    };
    Some(RoadFeature {
        id,
        class: decode_feature_class(layer, feature),
        source_layer: source_layer.to_owned(),
        points_tile: points,
    })
}

/// Builds the polygon feature of a polygon feature (see [`polygon_of`]).
pub fn decode_polygon_feature(source_layer: &str, layer: &MvtLayer, feature: &MvtFeature) -> (r: Option<PolygonFeature>)
    ensures
        match polygon_of(source_layer@, layer@, feature@) {
            Some(poly) => r matches Some(x) && x@ == poly,
            None => r is None,
        },
{
    let raw_rings = match decode_geometry_rings(feature.geometry.as_slice()) {
        Some(r) => r,
        None => return None,
    };
    proof {
        lemma_geometry_in_i32(feature.geometry@);
    }
    let rings = classify_polygon_rings(raw_rings);
    if rings.len() == 0 {
        return None;
    }
    let id = match feature.id {
        Some(v) => v,
        None => 0,
    };
    Some(PolygonFeature {
        id,
        class: decode_feature_class(layer, feature),
        source_layer: source_layer.to_owned(),
        rings,
    })
}

/// The roads among the first `n` features of a layer, in order.
pub open spec fn layer_roads(layer: SpecLayer, n: nat) -> Seq<SpecRoad>
    decreases n,
{
    if n == 0 {
        Seq::empty()
    } else {
        let f = layer.features[n - 1];
        let prev = layer_roads(layer, (n - 1) as nat);
        if f.geom_type == Some(2i32) && road_of(layer.name, layer, f) is Some {
            prev.push(road_of(layer.name, layer, f).unwrap())
        } else {
            prev
        }
    }
}

/// The polygons among the first `n` features of a layer, in order.
pub open spec fn layer_polygons(layer: SpecLayer, n: nat) -> Seq<SpecPolygon>
    decreases n,
{
    if n == 0 {
        Seq::empty()
    } else {
        let f = layer.features[n - 1];
        let prev = layer_polygons(layer, (n - 1) as nat);
        if f.geom_type == Some(3i32) && polygon_of(layer.name, layer, f) is Some {
            prev.push(polygon_of(layer.name, layer, f).unwrap())
        } else {
            prev
        }
    }
}

/// The roads of the first `n` layers, layer by layer.
pub open spec fn tile_roads(layers: Seq<SpecLayer>, n: nat) -> Seq<SpecRoad>
    decreases n,
{
    if n == 0 {
        Seq::empty()
    } else {
        let l = layers[n - 1];
        tile_roads(layers, (n - 1) as nat) + layer_roads(l, l.features.len())
    }
}

/// The polygons of the first `n` layers, layer by layer.
pub open spec fn tile_polygons(layers: Seq<SpecLayer>, n: nat) -> Seq<SpecPolygon>
    decreases n,
{
    if n == 0 {
        Seq::empty()
    } else {
        let l = layers[n - 1];
        tile_polygons(layers, (n - 1) as nat) + layer_polygons(l, l.features.len())
    }
}

/// Decodes an encoded vector tile into roads (line-string features) and
/// polygons (polygon features); point features and features of unknown
/// type are left out.
pub fn decode_mvt_tile(bytes: &[u8]) -> (r: Result<DecodedMvtTile, TileDecodeError>)
    ensures
        match tile_layers(bytes@) {
            Some(ls) => r matches Ok(d) && roads_view(d.roads@) == tile_roads(ls, ls.len())
                && polygons_view(d.polygons@) == tile_polygons(ls, ls.len()),
            None => r is Err,
        },
{
    let tile = match decode_tile(bytes) {
        Ok(t) => t,
        Err(e) => return Err(e),
    };
    let ghost ls = tile@;
    let mut roads: Vec<RoadFeature> = Vec::new();
    let mut polygons: Vec<PolygonFeature> = Vec::new();
    let mut li: usize = 0;
    while li < tile.layers.len()
        invariant
            ls == tile@,
            li <= ls.len(),
            roads_view(roads@) == tile_roads(ls, li as nat),
            polygons_view(polygons@) == tile_polygons(ls, li as nat),
        decreases ls.len() - li,
    {
        let layer = &tile.layers[li];
        let ghost l = layer@;
        assert(l == ls[li as int]);
        let ghost roads0 = roads_view(roads@);
        let ghost polys0 = polygons_view(polygons@);
        let mut fi: usize = 0;
        while fi < layer.features.len()
            invariant
                l == layer@,
                fi <= l.features.len(),
                roads_view(roads@) == roads0 + layer_roads(l, fi as nat),
                polygons_view(polygons@) == polys0 + layer_polygons(l, fi as nat),
            decreases l.features.len() - fi,
        {
            let feature = &layer.features[fi];
            assert(l.features[fi as int] == feature@);
            let ghost rv = roads_view(roads@);
            let ghost pv = polygons_view(polygons@);
            if feature.geom_type == Some(2i32) {
                if let Some(road) = decode_road_feature(layer.name.as_str(), layer, feature) {
                    roads.push(road);
                    assert(roads_view(roads@) =~= rv.push(road@));
                }
            } else if feature.geom_type == Some(3i32) {
                if let Some(polygon) = decode_polygon_feature(layer.name.as_str(), layer, feature) {
                    polygons.push(polygon);
                    assert(polygons_view(polygons@) =~= pv.push(polygon@));
                }
            }
            assert(roads_view(roads@) =~= roads0 + layer_roads(l, (fi + 1) as nat));
            assert(polygons_view(polygons@) =~= polys0 + layer_polygons(l, (fi + 1) as nat));
            fi += 1;
        }
        assert(roads_view(roads@) =~= tile_roads(ls, (li + 1) as nat));
        assert(polygons_view(polygons@) =~= tile_polygons(ls, (li + 1) as nat));
        li += 1;
    }
    Ok(DecodedMvtTile { roads, polygons })
}

} // verus!
