use vstd::prelude::*;

verus! {

/// A position in integer map units: tile-local MVT units for decoded tiles,
/// world units at the world zoom once tiles are merged into a scene.
#[derive(Clone, Copy, Debug, PartialEq, Eq, Structural)]
pub struct Point {
    pub x: i64,
    pub y: i64,
}

/// Whether a polygon ring bounds an area or cuts a hole out of the
/// exterior ring before it.
#[derive(Clone, Copy, Debug, PartialEq, Eq, Structural)]
pub enum RingRole {
    Exterior,
    Hole,
}

#[derive(Clone, Debug)]
pub struct PolygonRing {
    pub points: Vec<Point>,
    pub role: RingRole,
}

#[derive(Clone, Debug)]
pub struct RoadFeature {
    pub id: u64,
    pub class: String,
    pub source_layer: String,
    pub points_tile: Vec<Point>,
}

#[derive(Clone, Debug)]
pub struct PolygonFeature {
    pub id: u64,
    pub class: String,
    pub source_layer: String,
    pub rings: Vec<PolygonRing>,
}

#[verifier::ext_equal]
pub struct SpecRing {
    pub points: Seq<Point>,
    pub role: RingRole,
}

#[verifier::ext_equal]
pub struct SpecRoad {
    pub id: u64,
    pub class: Seq<char>,
    pub source_layer: Seq<char>,
    pub points: Seq<Point>,
}

#[verifier::ext_equal]
pub struct SpecPolygon {
    pub id: u64,
    pub class: Seq<char>,
    pub source_layer: Seq<char>,
    pub rings: Seq<SpecRing>,
}

impl View for PolygonRing {
    type V = SpecRing;

    open spec fn view(&self) -> SpecRing {
        SpecRing { points: self.points@, role: self.role }
    }
}

pub open spec fn rings_view(v: Seq<PolygonRing>) -> Seq<SpecRing> {
    v.map_values(|r: PolygonRing| r@)
}

impl View for RoadFeature {
    type V = SpecRoad;

    open spec fn view(&self) -> SpecRoad {
        SpecRoad {
            id: self.id,
            class: self.class@,
            source_layer: self.source_layer@,
            points: self.points_tile@,
        }
    }
}

impl View for PolygonFeature {
    type V = SpecPolygon;

    open spec fn view(&self) -> SpecPolygon {
        SpecPolygon {
            id: self.id,
            class: self.class@,
            source_layer: self.source_layer@,
            rings: rings_view(self.rings@),
        }
    }
}

pub open spec fn roads_view(v: Seq<RoadFeature>) -> Seq<SpecRoad> {
    v.map_values(|r: RoadFeature| r@)
}

pub open spec fn polygons_view(v: Seq<PolygonFeature>) -> Seq<SpecPolygon> {
    v.map_values(|p: PolygonFeature| p@)
}

} // verus!
