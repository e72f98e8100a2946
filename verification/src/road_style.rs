//! Per-class road styling. Colours are in thousandths of full intensity and
//! half widths in tenths of a world unit, exactly the decimal values of the
//! style table; the renderer scales them to floats.
use vstd::prelude::*;

use crate::feature::RoadFeature;
use crate::sort::{key_order, lemma_key_order_total, sort_keys, Key};
use crate::text::str_eq;

verus! {

/// An RGBA colour in thousandths.
#[derive(Clone, Copy, Debug, PartialEq, Eq, Structural)]
pub struct Rgba {
    pub r: u16,
    pub g: u16,
    pub b: u16,
    pub a: u16,
}

/// How one road class is drawn.
#[derive(Clone, Copy, Debug, PartialEq, Eq, Structural)]
pub struct RoadStyle {
    pub color: Rgba,
    /// Half stroke width in tenths of a world unit.
    pub half_width_tenths: u16,
    /// Higher draws later (on top).
    pub draw_order: u8,
}

/// The style table: waterways by source layer, everything else by class.
pub open spec fn style_of(source_layer: Seq<char>, class: Seq<char>) -> RoadStyle {
    if source_layer == "waterway"@ {
        RoadStyle { color: Rgba { r: 250, g: 550, b: 780, a: 1000 }, half_width_tenths: 45, draw_order: 0 }
    } else if class == "motorway"@ || class == "motorway_construction"@ {
        RoadStyle { color: Rgba { r: 950, g: 450, b: 200, a: 1000 }, half_width_tenths: 85, draw_order: 8 }
    } else if class == "trunk"@ || class == "trunk_construction"@ {
        RoadStyle { color: Rgba { r: 950, g: 580, b: 220, a: 1000 }, half_width_tenths: 80, draw_order: 7 }
    } else if class == "primary"@ || class == "primary_construction"@ {
        RoadStyle { color: Rgba { r: 920, g: 720, b: 280, a: 1000 }, half_width_tenths: 70, draw_order: 6 }
    } else if class == "secondary"@ || class == "secondary_construction"@ {
        RoadStyle { color: Rgba { r: 880, g: 820, b: 380, a: 1000 }, half_width_tenths: 60, draw_order: 5 }
    } else if class == "tertiary"@ || class == "tertiary_construction"@ {
        RoadStyle { color: Rgba { r: 780, g: 780, b: 550, a: 1000 }, half_width_tenths: 50, draw_order: 4 }
    } else if class == "minor"@ || class == "street"@ {
        RoadStyle { color: Rgba { r: 620, g: 620, b: 640, a: 1000 }, half_width_tenths: 40, draw_order: 3 }
    } else if class == "service"@ || class == "busway"@ || class == "bus_guideway"@ {
        RoadStyle { color: Rgba { r: 520, g: 520, b: 550, a: 1000 }, half_width_tenths: 30, draw_order: 2 }
    } else if class == "path"@ || class == "track"@ || class == "footway"@ || class == "cycleway"@ || class == "pedestrian"@ || class == "bridleway"@ {
        RoadStyle { color: Rgba { r: 420, g: 580, b: 400, a: 1000 }, half_width_tenths: 20, draw_order: 1 }
    } else if class == "rail"@ || class == "transit"@ {
        RoadStyle { color: Rgba { r: 580, g: 420, b: 650, a: 1000 }, half_width_tenths: 30, draw_order: 9 }
    } else if class == "ferry"@ {
        RoadStyle { color: Rgba { r: 350, g: 550, b: 800, a: 1000 }, half_width_tenths: 40, draw_order: 1 }
    } else if class == "raceway"@ {
        RoadStyle { color: Rgba { r: 750, g: 350, b: 550, a: 1000 }, half_width_tenths: 50, draw_order: 5 }
    } else {
        RoadStyle { color: Rgba { r: 550, g: 560, b: 580, a: 1000 }, half_width_tenths: 35, draw_order: 3 }
    }
}

/// The major road classes of the style table, on any source layer but
/// "waterway": each class and its construction variant share one style, and
/// from tertiary through secondary, primary and trunk to motorway the draw
/// order and the half width strictly increase; primary roads are orange
/// (920, 720, 280), 7 units wide per side, drawn at order 6.
pub proof fn lemma_major_road_styles(layer: Seq<char>)
    requires
        layer != "waterway"@,
    ensures
        style_of(layer, "primary"@) == (RoadStyle {
            color: Rgba { r: 920, g: 720, b: 280, a: 1000 },
            half_width_tenths: 70,
            draw_order: 6,
        }),
        style_of(layer, "primary_construction"@) == style_of(layer, "primary"@),
        style_of(layer, "motorway_construction"@) == style_of(layer, "motorway"@),
        style_of(layer, "trunk_construction"@) == style_of(layer, "trunk"@),
        style_of(layer, "secondary_construction"@) == style_of(layer, "secondary"@),
        style_of(layer, "tertiary_construction"@) == style_of(layer, "tertiary"@),
        style_of(layer, "tertiary"@).draw_order < style_of(layer, "secondary"@).draw_order,
        style_of(layer, "secondary"@).draw_order < style_of(layer, "primary"@).draw_order,
        style_of(layer, "primary"@).draw_order < style_of(layer, "trunk"@).draw_order,
        style_of(layer, "trunk"@).draw_order < style_of(layer, "motorway"@).draw_order,
        style_of(layer, "tertiary"@).half_width_tenths < style_of(layer, "secondary"@).half_width_tenths,
        style_of(layer, "secondary"@).half_width_tenths < style_of(layer, "primary"@).half_width_tenths,
        style_of(layer, "primary"@).half_width_tenths < style_of(layer, "trunk"@).half_width_tenths,
        style_of(layer, "trunk"@).half_width_tenths < style_of(layer, "motorway"@).half_width_tenths,
{
    reveal_strlit("motorway");
    reveal_strlit("motorway_construction");
    reveal_strlit("trunk");
    reveal_strlit("trunk_construction");
    reveal_strlit("primary");
    reveal_strlit("primary_construction");
    reveal_strlit("secondary");
    reveal_strlit("secondary_construction");
    reveal_strlit("tertiary");
    reveal_strlit("tertiary_construction");
    assert("motorway"@.len() == 8 && "motorway_construction"@.len() == 21 && "trunk"@.len() == 5
        && "trunk_construction"@.len() == 18 && "primary"@.len() == 7 && "primary_construction"@.len() == 20
        && "secondary"@.len() == 9 && "secondary_construction"@.len() == 22 && "tertiary"@.len() == 8
        && "tertiary_construction"@.len() == 21);
    assert("tertiary"@[0] != "motorway"@[0]);
    assert("tertiary_construction"@[0] != "motorway_construction"@[0]);
}

/// Looks up the style of a road (see [`style_of`]).
pub fn road_style(road: &RoadFeature) -> (r: RoadStyle)
    ensures
        r == style_of(road.source_layer@, road.class@),
{
    if str_eq(road.source_layer.as_str(), "waterway") {
        return RoadStyle { color: Rgba { r: 250, g: 550, b: 780, a: 1000 }, half_width_tenths: 45, draw_order: 0 };
    }
    let class = road.class.as_str();
    if str_eq(class, "motorway") || str_eq(class, "motorway_construction") {
        return RoadStyle { color: Rgba { r: 950, g: 450, b: 200, a: 1000 }, half_width_tenths: 85, draw_order: 8 };
    }
    if str_eq(class, "trunk") || str_eq(class, "trunk_construction") {
        return RoadStyle { color: Rgba { r: 950, g: 580, b: 220, a: 1000 }, half_width_tenths: 80, draw_order: 7 };
    }
    if str_eq(class, "primary") || str_eq(class, "primary_construction") {
        return RoadStyle { color: Rgba { r: 920, g: 720, b: 280, a: 1000 }, half_width_tenths: 70, draw_order: 6 };
    }
    if str_eq(class, "secondary") || str_eq(class, "secondary_construction") {
        return RoadStyle { color: Rgba { r: 880, g: 820, b: 380, a: 1000 }, half_width_tenths: 60, draw_order: 5 };
    }
    if str_eq(class, "tertiary") || str_eq(class, "tertiary_construction") {
        return RoadStyle { color: Rgba { r: 780, g: 780, b: 550, a: 1000 }, half_width_tenths: 50, draw_order: 4 };
    }
    if str_eq(class, "minor") || str_eq(class, "street") {
        return RoadStyle { color: Rgba { r: 620, g: 620, b: 640, a: 1000 }, half_width_tenths: 40, draw_order: 3 };
    }
    if str_eq(class, "service") || str_eq(class, "busway") || str_eq(class, "bus_guideway") {
        return RoadStyle { color: Rgba { r: 520, g: 520, b: 550, a: 1000 }, half_width_tenths: 30, draw_order: 2 };
    }
    if str_eq(class, "path") || str_eq(class, "track") || str_eq(class, "footway") || str_eq(class, "cycleway") || str_eq(class, "pedestrian") || str_eq(class, "bridleway") {
        return RoadStyle { color: Rgba { r: 420, g: 580, b: 400, a: 1000 }, half_width_tenths: 20, draw_order: 1 };
    }
    if str_eq(class, "rail") || str_eq(class, "transit") {
        return RoadStyle { color: Rgba { r: 580, g: 420, b: 650, a: 1000 }, half_width_tenths: 30, draw_order: 9 };
    }
    if str_eq(class, "ferry") {
        return RoadStyle { color: Rgba { r: 350, g: 550, b: 800, a: 1000 }, half_width_tenths: 40, draw_order: 1 };
    }
    if str_eq(class, "raceway") {
        return RoadStyle { color: Rgba { r: 750, g: 350, b: 550, a: 1000 }, half_width_tenths: 50, draw_order: 5 };
    }
    RoadStyle { color: Rgba { r: 550, g: 560, b: 580, a: 1000 }, half_width_tenths: 35, draw_order: 3 }
}

/// Sort keys that order roads by draw order, ties by position.
pub open spec fn draw_keys(roads: Seq<RoadFeature>) -> Seq<Key> {
    Seq::new(roads.len(), |i: int| (style_of(roads[i]@.source_layer, roads[i]@.class).draw_order as u64, i as u64, 0u64))
}

/// The positions of `roads` in drawing order: by draw order, minor classes
/// first so that major roads end up on top where ribbons overlap, roads of
/// equal order in their original order.
pub open spec fn draw_sequence(roads: Seq<RoadFeature>) -> Seq<usize> {
    draw_keys(roads).sort_by(key_order()).map_values(|k: Key| k.1 as usize)
}

/// Orders roads for drawing (see [`draw_sequence`]).
pub fn roads_in_draw_order(roads: &[RoadFeature]) -> (r: Vec<usize>)
    ensures
        r@ == draw_sequence(roads@),
{
    let mut keys: Vec<Key> = Vec::with_capacity(roads.len());
    let mut i: usize = 0;
    while i < roads.len()
        invariant
            i <= roads@.len(),
            keys@ == draw_keys(roads@).take(i as int),
        decreases roads@.len() - i,
    {
        let style = road_style(&roads[i]);
        keys.push((style.draw_order as u64, i as u64, 0u64));
        i += 1;
        assert(keys@ =~= draw_keys(roads@).take(i as int));
    }
    assert(draw_keys(roads@).take(roads@.len() as int) =~= draw_keys(roads@));
    let sorted = sort_keys(&keys);
    let mut out: Vec<usize> = Vec::with_capacity(sorted.len());
    let mut k: usize = 0;
    while k < sorted.len()
        invariant
            k <= sorted@.len(),
            out@ == sorted@.take(k as int).map_values(|x: Key| x.1 as usize),
        decreases sorted@.len() - k,
    {
        out.push(sorted[k].1 as usize);
        k += 1;
        assert(out@ =~= sorted@.take(k as int).map_values(|x: Key| x.1 as usize));
    }
    assert(sorted@.take(sorted@.len() as int) =~= sorted@);
    out
}

pub open spec fn draw_order_of(roads: Seq<RoadFeature>, i: int) -> u8 {
    style_of(roads[i]@.source_layer, roads[i]@.class).draw_order
}

/// The drawing order lists every road exactly once, by ascending draw
/// order, and roads of equal draw order in their original order.
pub proof fn lemma_draw_sequence_is_stable_order(roads: Seq<RoadFeature>)
    requires
        roads.len() <= usize::MAX,
    ensures
        draw_sequence(roads).len() == roads.len(),
        forall|i: int| 0 <= i < roads.len() ==> (#[trigger] draw_sequence(roads)[i]) < roads.len(),
        forall|i: int, j: int| 0 <= i < j < roads.len() ==> #[trigger] draw_sequence(roads)[i]
            != #[trigger] draw_sequence(roads)[j],
        forall|i: int, j: int| 0 <= i < j < roads.len() ==> {
            let a = #[trigger] draw_sequence(roads)[i] as int;
            let b = #[trigger] draw_sequence(roads)[j] as int;
            draw_order_of(roads, a) < draw_order_of(roads, b) || (draw_order_of(roads, a) == draw_order_of(
                roads,
                b,
            ) && a < b)
        },
{
    broadcast use vstd::seq_lib::group_to_multiset_ensures;
    broadcast use vstd::multiset::group_multiset_axioms;

    let keys = draw_keys(roads);
    let sorted = keys.sort_by(key_order());
    let s = draw_sequence(roads);
    lemma_key_order_total();
    keys.lemma_sort_by_ensures(key_order());
    vstd::seq_lib::to_multiset_len(keys);
    vstd::seq_lib::to_multiset_len(sorted);
    assert(keys.no_duplicates()) by {
        assert forall|a: int, b: int| 0 <= a < keys.len() && 0 <= b < keys.len() && a != b implies keys[a]
            != keys[b] by {
            assert(keys[a].1 == a as u64 && keys[b].1 == b as u64);
        }
    }
    keys.lemma_multiset_has_no_duplicates();
    sorted.lemma_multiset_has_no_duplicates_conv();
    assert forall|i: int| 0 <= i < sorted.len() implies exists|m: int| 0 <= m < keys.len() && keys[m] == #[trigger] sorted[i] by {
        assert(sorted.to_multiset().contains(sorted[i]));
        assert(keys.contains(sorted[i]));
    }
    assert forall|i: int| 0 <= i < roads.len() implies (#[trigger] s[i]) < roads.len() && s[i] as int == sorted[i].1
        && draw_order_of(roads, s[i] as int) == sorted[i].0 by {
        let m = choose|m: int| 0 <= m < keys.len() && keys[m] == sorted[i];
        assert(keys[m] == (draw_order_of(roads, m) as u64, m as u64, 0u64));
    }
    assert forall|i: int, j: int| 0 <= i < j < roads.len() implies {
        let a = #[trigger] s[i] as int;
        let b = #[trigger] s[j] as int;
        draw_order_of(roads, a) < draw_order_of(roads, b) || (draw_order_of(roads, a) == draw_order_of(roads, b)
            && a < b)
    } by {
        assert(key_order()(sorted[i], sorted[j]));
        assert(sorted[i] != sorted[j]);
        let mi = choose|m: int| 0 <= m < keys.len() && keys[m] == sorted[i];
        let mj = choose|m: int| 0 <= m < keys.len() && keys[m] == sorted[j];
        assert(sorted[i].2 == 0 && sorted[j].2 == 0);
    }
}

} // verus!
