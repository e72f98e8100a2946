use vstd::prelude::*;

use crate::feature::{polygons_view, roads_view, PolygonFeature, RoadFeature, SpecPolygon, SpecRoad};
use crate::tile::TileId;

verus! {

/// The render layers a scene is split into.
#[derive(Clone, Copy, Debug, PartialEq, Eq, Hash, Structural)]
pub enum LayerKind {
    Background,
    Roads,
    Buildings,
    Labels,
    Raster,
    Custom(u16),
}

#[derive(Clone, Debug)]
pub enum LayerPayload {
    Background(Vec<PolygonFeature>),
    Buildings(Vec<PolygonFeature>),
    Roads(Vec<RoadFeature>),
    Empty,
}

#[derive(Clone, Debug)]
pub struct TileLayerData {
    pub kind: LayerKind,
    pub payload: LayerPayload,
}

#[derive(Clone, Debug)]
pub struct TileSceneData {
    pub tile_id: TileId,
    pub layers: Vec<TileLayerData>,
}

pub enum SpecPayload {
    Background(Seq<SpecPolygon>),
    Buildings(Seq<SpecPolygon>),
    Roads(Seq<SpecRoad>),
    Empty,
}

pub struct SpecLayerData {
    pub kind: LayerKind,
    pub payload: SpecPayload,
}

pub struct SpecScene {
    pub tile_id: TileId,
    pub layers: Seq<SpecLayerData>,
}

impl View for LayerPayload {
    type V = SpecPayload;

    open spec fn view(&self) -> SpecPayload {
        match self {
            LayerPayload::Background(v) => SpecPayload::Background(polygons_view(v@)),
            LayerPayload::Buildings(v) => SpecPayload::Buildings(polygons_view(v@)),
            LayerPayload::Roads(v) => SpecPayload::Roads(roads_view(v@)),
            LayerPayload::Empty => SpecPayload::Empty,
        }
    }
}

impl View for TileLayerData {
    type V = SpecLayerData;

    open spec fn view(&self) -> SpecLayerData {
        SpecLayerData { kind: self.kind, payload: self.payload@ }
    }
}

pub open spec fn layer_data_view(v: Seq<TileLayerData>) -> Seq<SpecLayerData> {
    v.map_values(|l: TileLayerData| l@)
}

impl View for TileSceneData {
    type V = SpecScene;

    open spec fn view(&self) -> SpecScene {
        SpecScene { tile_id: self.tile_id, layers: layer_data_view(self.layers@) }
    }
}

/// The three layers every built scene holds, in this order: background
/// fills, buildings, roads.
pub open spec fn three_layers(
    background: Seq<SpecPolygon>,
    buildings: Seq<SpecPolygon>,
    roads: Seq<SpecRoad>,
) -> Seq<SpecLayerData> {
    seq![
        SpecLayerData { kind: LayerKind::Background, payload: SpecPayload::Background(background) },
        SpecLayerData { kind: LayerKind::Buildings, payload: SpecPayload::Buildings(buildings) },
        SpecLayerData { kind: LayerKind::Roads, payload: SpecPayload::Roads(roads) },
    ]
}

/// Builds the three-layer scene of [`three_layers`].
pub fn build_three_layer_scene(
    tile_id: TileId,
    background: Vec<PolygonFeature>,
    buildings: Vec<PolygonFeature>,
    roads: Vec<RoadFeature>,
) -> (r: TileSceneData)
    ensures
        r@.tile_id == tile_id,
        r@.layers == three_layers(polygons_view(background@), polygons_view(buildings@), roads_view(roads@)),
{
    let ghost bg = polygons_view(background@);
    let ghost bl = polygons_view(buildings@);
    let ghost rd = roads_view(roads@);
    let mut layers: Vec<TileLayerData> = Vec::new();
    layers.push(TileLayerData { kind: LayerKind::Background, payload: LayerPayload::Background(background) });
    layers.push(TileLayerData { kind: LayerKind::Buildings, payload: LayerPayload::Buildings(buildings) });
    layers.push(TileLayerData { kind: LayerKind::Roads, payload: LayerPayload::Roads(roads) });
    assert(layer_data_view(layers@) =~= three_layers(bg, bl, rd));
    TileSceneData { tile_id, layers }
}

} // verus!
