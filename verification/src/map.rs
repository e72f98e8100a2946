//! Routing decoded features into scene layers by their source layer.
use vstd::prelude::*;

use crate::config::MvtSourceProfile;
use crate::decode::DecodedMvtTile;
use crate::feature::{polygons_view, roads_view, PolygonFeature, RoadFeature, SpecPolygon, SpecRoad};
use crate::scene::{build_three_layer_scene, three_layers, TileSceneData};
use crate::text::str_eq;
use crate::tile::TileId;

verus! {

/// Polygon source layers drawn as background fills.
pub open spec fn is_fill_layer(profile: MvtSourceProfile, name: Seq<char>) -> bool {
    match profile {
        MvtSourceProfile::OpenMapTiles => name == "water"@ || name == "landcover"@ || name == "landuse"@
            || name == "park"@,
        MvtSourceProfile::MapLibreDemo => name == "countries"@,
    }
}

/// Polygon source layers drawn as buildings (OpenMapTiles only, zoom 13 and up).
pub open spec fn is_building_layer(profile: MvtSourceProfile, name: Seq<char>) -> bool {
    match profile {
        MvtSourceProfile::OpenMapTiles => name == "building"@,
        MvtSourceProfile::MapLibreDemo => false,
    }
}

/// Line source layers drawn as roads.
pub open spec fn is_line_layer(profile: MvtSourceProfile, name: Seq<char>) -> bool {
    match profile {
        MvtSourceProfile::OpenMapTiles => name == "transportation"@ || name == "waterway"@,
        MvtSourceProfile::MapLibreDemo => name == "countries"@ || name == "geolines"@,
    }
}

/// The polygons of `ps` that become buildings, in order.
pub open spec fn building_polygons(profile: MvtSourceProfile, ps: Seq<SpecPolygon>) -> Seq<SpecPolygon>
    decreases ps.len(),
{
    if ps.len() == 0 {
        Seq::empty()
    } else {
        let prev = building_polygons(profile, ps.drop_last());
        if is_building_layer(profile, ps.last().source_layer) {
            prev.push(ps.last())
        } else {
            prev
        }
    }
}

/// The polygons of `ps` that become background fills, in order: fill layers
/// that are not building layers.
pub open spec fn background_polygons(profile: MvtSourceProfile, ps: Seq<SpecPolygon>) -> Seq<SpecPolygon>
    decreases ps.len(),
{
    if ps.len() == 0 {
        Seq::empty()
    } else {
        let prev = background_polygons(profile, ps.drop_last());
        let l = ps.last().source_layer;
        if !is_building_layer(profile, l) && is_fill_layer(profile, l) {
            prev.push(ps.last())
        } else {
            prev
        }
    }
}

/// The roads of `rs` on line layers, in order.
pub open spec fn line_roads(profile: MvtSourceProfile, rs: Seq<SpecRoad>) -> Seq<SpecRoad>
    decreases rs.len(),
{
    if rs.len() == 0 {
        Seq::empty()
    } else {
        let prev = line_roads(profile, rs.drop_last());
        if is_line_layer(profile, rs.last().source_layer) {
            prev.push(rs.last())
        } else {
            prev
        }
    }
}

fn fill_layer(profile: MvtSourceProfile, name: &str) -> (r: bool)
    ensures
        r == is_fill_layer(profile, name@),
{
    match profile {
        MvtSourceProfile::OpenMapTiles => str_eq(name, "water") || str_eq(name, "landcover")
            || str_eq(name, "landuse") || str_eq(name, "park"),
        MvtSourceProfile::MapLibreDemo => str_eq(name, "countries"),
    }
}

fn building_layer(profile: MvtSourceProfile, name: &str) -> (r: bool)
    ensures
        r == is_building_layer(profile, name@),
{
    match profile {
        MvtSourceProfile::OpenMapTiles => str_eq(name, "building"),
        MvtSourceProfile::MapLibreDemo => false,
    }
}

fn line_layer(profile: MvtSourceProfile, name: &str) -> (r: bool)
    ensures
        r == is_line_layer(profile, name@),
{
    match profile {
        MvtSourceProfile::OpenMapTiles => str_eq(name, "transportation") || str_eq(name, "waterway"),
        MvtSourceProfile::MapLibreDemo => str_eq(name, "countries") || str_eq(name, "geolines"),
    }
}

/// Maps a decoded tile to its scene: background fills, buildings, roads
/// (see [`background_polygons`], [`building_polygons`], [`line_roads`]).
/// Features on other source layers are dropped.
pub fn map_decoded_tile_to_scene(tile_id: TileId, decoded: DecodedMvtTile, profile: MvtSourceProfile) -> (r: TileSceneData)
    ensures
        r@.tile_id == tile_id,
        r@.layers == three_layers(
            background_polygons(profile, polygons_view(decoded.polygons@)),
            building_polygons(profile, polygons_view(decoded.polygons@)),
            line_roads(profile, roads_view(decoded.roads@)),
        ),
{
    let DecodedMvtTile { roads: mut all_roads, polygons: mut all_polygons } = decoded;
    let ghost ps = polygons_view(all_polygons@);
    let ghost rs = roads_view(all_roads@);
    let np = all_polygons.len();
    let nr = all_roads.len();

    // Reverse, so that popping hands the features out in their original order.
    let mut pending_polygons: Vec<PolygonFeature> = Vec::new();
    while all_polygons.len() > 0
        invariant
            ps.len() == np,
            all_polygons@.len() + pending_polygons@.len() == np,
            forall|k: int| 0 <= k < all_polygons@.len() ==> #[trigger] all_polygons@[k]@ == ps[k],
            forall|k: int| 0 <= k < pending_polygons@.len() ==> #[trigger] pending_polygons@[k]@ == ps[np - 1 - k],
        decreases all_polygons@.len(),
    {
        let p = all_polygons.pop().unwrap();
        pending_polygons.push(p);
    }

    let mut background: Vec<PolygonFeature> = Vec::new();
    let mut buildings: Vec<PolygonFeature> = Vec::new();
    let mut done: usize = 0;
    assert(ps.take(0) =~= Seq::<SpecPolygon>::empty());
    while pending_polygons.len() > 0
        invariant
            ps.len() == np,
            done + pending_polygons@.len() == np,
            forall|k: int| 0 <= k < pending_polygons@.len() ==> #[trigger] pending_polygons@[k]@ == ps[np - 1 - k],
            polygons_view(background@) == background_polygons(profile, ps.take(done as int)),
            polygons_view(buildings@) == building_polygons(profile, ps.take(done as int)),
        decreases pending_polygons@.len(),
    {
        let polygon = pending_polygons.pop().unwrap();
        assert(ps.take(done + 1).drop_last() =~= ps.take(done as int));
        assert(ps.take(done + 1).last() == polygon@);
        let ghost bg0 = polygons_view(background@);
        let ghost bl0 = polygons_view(buildings@);
        if building_layer(profile, polygon.source_layer.as_str()) {
            buildings.push(polygon);
            assert(polygons_view(buildings@) =~= bl0.push(buildings@.last()@));
        } else if fill_layer(profile, polygon.source_layer.as_str()) {
            background.push(polygon);
            assert(polygons_view(background@) =~= bg0.push(background@.last()@));
        }
        done += 1;
    }
    assert(ps.take(np as int) =~= ps);

    let mut pending_roads: Vec<RoadFeature> = Vec::new();
    while all_roads.len() > 0
        invariant
            rs.len() == nr,
            all_roads@.len() + pending_roads@.len() == nr,
            forall|k: int| 0 <= k < all_roads@.len() ==> #[trigger] all_roads@[k]@ == rs[k],
            forall|k: int| 0 <= k < pending_roads@.len() ==> #[trigger] pending_roads@[k]@ == rs[nr - 1 - k],
        decreases all_roads@.len(),
    {
        let r = all_roads.pop().unwrap();
        pending_roads.push(r);
    }

    let mut roads: Vec<RoadFeature> = Vec::new();
    let mut done_roads: usize = 0;
    assert(rs.take(0) =~= Seq::<SpecRoad>::empty());
    while pending_roads.len() > 0
        invariant
            rs.len() == nr,
            done_roads + pending_roads@.len() == nr,
            forall|k: int| 0 <= k < pending_roads@.len() ==> #[trigger] pending_roads@[k]@ == rs[nr - 1 - k],
            roads_view(roads@) == line_roads(profile, rs.take(done_roads as int)),
        decreases pending_roads@.len(),
    {
        let road = pending_roads.pop().unwrap();
        assert(rs.take(done_roads + 1).drop_last() =~= rs.take(done_roads as int));
        assert(rs.take(done_roads + 1).last() == road@);
        let ghost r0 = roads_view(roads@);
        if line_layer(profile, road.source_layer.as_str()) {
            roads.push(road);
            assert(roads_view(roads@) =~= r0.push(roads@.last()@));
        }
        done_roads += 1;
    }
    assert(rs.take(nr as int) =~= rs);

    build_three_layer_scene(tile_id, background, buildings, roads)
}

/// Routing sends each polygon to at most one of the background and
/// building layers, and only features of the profile's layers: building
/// polygons come from building layers, background polygons from fill layers
/// that are not building layers, roads from line layers.
pub proof fn lemma_routing_is_disjoint(profile: MvtSourceProfile, ps: Seq<SpecPolygon>, rs: Seq<SpecRoad>)
    ensures
        background_polygons(profile, ps).len() + building_polygons(profile, ps).len() <= ps.len(),
        line_roads(profile, rs).len() <= rs.len(),
        forall|p: SpecPolygon| #[trigger] building_polygons(profile, ps).contains(p) ==> ps.contains(p)
            && is_building_layer(profile, p.source_layer),
        forall|p: SpecPolygon| #[trigger] background_polygons(profile, ps).contains(p) ==> ps.contains(p)
            && is_fill_layer(profile, p.source_layer) && !is_building_layer(profile, p.source_layer),
        forall|r: SpecRoad| #[trigger] line_roads(profile, rs).contains(r) ==> rs.contains(r)
            && is_line_layer(profile, r.source_layer),
    decreases ps.len() + rs.len(),
{
    if ps.len() > 0 {
        lemma_routing_is_disjoint(profile, ps.drop_last(), rs);
        let prev_bg = background_polygons(profile, ps.drop_last());
        let prev_bl = building_polygons(profile, ps.drop_last());
        assert forall|p: SpecPolygon| #[trigger] building_polygons(profile, ps).contains(p) implies ps.contains(p)
            && is_building_layer(profile, p.source_layer) by {
            if prev_bl.contains(p) {
                let k = choose|k: int| 0 <= k < ps.drop_last().len() && ps.drop_last()[k] == p;
                assert(ps[k] == p);
            } else {
                assert(building_polygons(profile, ps) =~= prev_bl.push(ps.last()));
                let k = choose|k: int| 0 <= k < prev_bl.len() + 1 && prev_bl.push(ps.last())[k] == p;
                assert(ps[ps.len() - 1] == p);
            }
        }
        assert forall|p: SpecPolygon| #[trigger] background_polygons(profile, ps).contains(p) implies ps.contains(p)
            && is_fill_layer(profile, p.source_layer) && !is_building_layer(profile, p.source_layer) by {
            if prev_bg.contains(p) {
                let k = choose|k: int| 0 <= k < ps.drop_last().len() && ps.drop_last()[k] == p;
                assert(ps[k] == p);
            } else {
                assert(background_polygons(profile, ps) =~= prev_bg.push(ps.last()));
                let k = choose|k: int| 0 <= k < prev_bg.len() + 1 && prev_bg.push(ps.last())[k] == p;
                assert(ps[ps.len() - 1] == p);
            }
        }
    }
    if rs.len() > 0 {
        lemma_routing_is_disjoint(profile, ps, rs.drop_last());
        let prev = line_roads(profile, rs.drop_last());
        assert forall|r: SpecRoad| #[trigger] line_roads(profile, rs).contains(r) implies rs.contains(r)
            && is_line_layer(profile, r.source_layer) by {
            if prev.contains(r) {
                let k = choose|k: int| 0 <= k < rs.drop_last().len() && rs.drop_last()[k] == r;
                assert(rs[k] == r);
            } else {
                assert(line_roads(profile, rs) =~= prev.push(rs.last()));
                let k = choose|k: int| 0 <= k < prev.len() + 1 && prev.push(rs.last())[k] == r;
                assert(rs[rs.len() - 1] == r);
            }
        }
    }
}

/// The routing table of each profile, by source layer name: under
/// OpenMapTiles, polygons of "water", "landcover", "landuse" and "park" are
/// background fills, polygons of "building" are buildings, and lines of
/// "transportation" and "waterway" are roads; under the MapLibre demo tiles,
/// polygons of "countries" are fills (there are no buildings) and lines of
/// "countries" and "geolines" are roads. A feature on any other layer is
/// dropped.
pub proof fn lemma_routing_table(p: SpecPolygon, r: SpecRoad)
    ensures
        ({
            let l = p.source_layer;
            let fill = l == "water"@ || l == "landcover"@ || l == "landuse"@ || l == "park"@;
            &&& background_polygons(MvtSourceProfile::OpenMapTiles, seq![p]) == if fill {
                seq![p]
            } else {
                Seq::<SpecPolygon>::empty()
            }
            &&& building_polygons(MvtSourceProfile::OpenMapTiles, seq![p]) == if l == "building"@ {
                seq![p]
            } else {
                Seq::<SpecPolygon>::empty()
            }
            &&& background_polygons(MvtSourceProfile::MapLibreDemo, seq![p]) == if l == "countries"@ {
                seq![p]
            } else {
                Seq::<SpecPolygon>::empty()
            }
            &&& building_polygons(MvtSourceProfile::MapLibreDemo, seq![p]) == Seq::<SpecPolygon>::empty()
        }),
        ({
            let l = r.source_layer;
            &&& line_roads(MvtSourceProfile::OpenMapTiles, seq![r]) == if l == "transportation"@ || l == "waterway"@ {
                seq![r]
            } else {
                Seq::<SpecRoad>::empty()
            }
            &&& line_roads(MvtSourceProfile::MapLibreDemo, seq![r]) == if l == "countries"@ || l == "geolines"@ {
                seq![r]
            } else {
                Seq::<SpecRoad>::empty()
            }
        }),
{
    reveal_strlit("building");
    reveal_strlit("water");
    reveal_strlit("landcover");
    reveal_strlit("landuse");
    reveal_strlit("park");
    let ps = seq![p];
    let rs = seq![r];
    assert(ps.drop_last() =~= Seq::<SpecPolygon>::empty());
    assert(rs.drop_last() =~= Seq::<SpecRoad>::empty());
    assert(ps.last() == p);
    assert(rs.last() == r);
    assert(Seq::<SpecPolygon>::empty().push(p) =~= ps);
    assert(Seq::<SpecRoad>::empty().push(r) =~= rs);
    assert(background_polygons(MvtSourceProfile::OpenMapTiles, Seq::<SpecPolygon>::empty()) == Seq::<SpecPolygon>::empty());
    assert(building_polygons(MvtSourceProfile::OpenMapTiles, Seq::<SpecPolygon>::empty()) == Seq::<SpecPolygon>::empty());
    assert(background_polygons(MvtSourceProfile::MapLibreDemo, Seq::<SpecPolygon>::empty()) == Seq::<SpecPolygon>::empty());
    assert(building_polygons(MvtSourceProfile::MapLibreDemo, Seq::<SpecPolygon>::empty()) == Seq::<SpecPolygon>::empty());
    assert(line_roads(MvtSourceProfile::OpenMapTiles, Seq::<SpecRoad>::empty()) == Seq::<SpecRoad>::empty());
    assert(line_roads(MvtSourceProfile::MapLibreDemo, Seq::<SpecRoad>::empty()) == Seq::<SpecRoad>::empty());
    assert(line_roads(MvtSourceProfile::OpenMapTiles, rs) == if is_line_layer(MvtSourceProfile::OpenMapTiles, r.source_layer) { seq![r] } else { Seq::<SpecRoad>::empty() });
    assert(line_roads(MvtSourceProfile::MapLibreDemo, rs) == if is_line_layer(MvtSourceProfile::MapLibreDemo, r.source_layer) { seq![r] } else { Seq::<SpecRoad>::empty() });
    assert(building_polygons(MvtSourceProfile::OpenMapTiles, ps) == if is_building_layer(MvtSourceProfile::OpenMapTiles, p.source_layer) { seq![p] } else { Seq::<SpecPolygon>::empty() });
    assert(background_polygons(MvtSourceProfile::OpenMapTiles, ps) == if !is_building_layer(MvtSourceProfile::OpenMapTiles, p.source_layer) && is_fill_layer(MvtSourceProfile::OpenMapTiles, p.source_layer) { seq![p] } else { Seq::<SpecPolygon>::empty() });
    assert(background_polygons(MvtSourceProfile::MapLibreDemo, ps) == if is_fill_layer(MvtSourceProfile::MapLibreDemo, p.source_layer) { seq![p] } else { Seq::<SpecPolygon>::empty() });
    assert(building_polygons(MvtSourceProfile::MapLibreDemo, ps) == Seq::<SpecPolygon>::empty());
    assert("building"@.len() == 8 && "water"@.len() == 5 && "landcover"@.len() == 9 && "landuse"@.len() == 7
        && "park"@.len() == 4);
    if p.source_layer == "building"@ {
        assert(p.source_layer != "water"@ && p.source_layer != "landcover"@ && p.source_layer != "landuse"@
            && p.source_layer != "park"@);
    }
}

} // verus!
