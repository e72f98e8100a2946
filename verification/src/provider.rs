//! The MVT tile provider: configuration plus the fetch, decode, map pipeline.
use vstd::prelude::*;

use crate::config::MvtProviderConfig;
use crate::decode::{decode_mvt_tile, tile_polygons, tile_roads, DecodedMvtTile};
use crate::feature::{polygons_view, roads_view};
use crate::map::{background_polygons, building_polygons, line_roads, map_decoded_tile_to_scene};
use crate::protobuf::TileDecodeError;
use crate::scene::{three_layers, TileSceneData};
use crate::tile::TileId;
use crate::vector_tile::tile_layers;

verus! {

pub struct MvtProvider {
    pub config: MvtProviderConfig,
}

impl Clone for MvtProvider {
    fn clone(&self) -> Self {
        MvtProvider { config: self.config.clone() }
    }
}

/// The scene that the fetched bytes of a tile map to: no bytes (an empty
/// response) give a scene with three empty layers; otherwise the bytes are
/// decoded and mapped with the configured source profile.
pub open spec fn scene_of_bytes(config: MvtProviderConfig, tile_id: TileId, bytes: Seq<u8>) -> Option<Seq<crate::scene::SpecLayerData>> {
    if bytes.len() == 0 {
        Some(three_layers(Seq::empty(), Seq::empty(), Seq::empty()))
    } else {
        match tile_layers(bytes) {
            Some(ls) => Some(three_layers(
                background_polygons(config.source_profile, tile_polygons(ls, ls.len())),
                building_polygons(config.source_profile, tile_polygons(ls, ls.len())),
                line_roads(config.source_profile, tile_roads(ls, ls.len())),
            )),
            None => None,
        }
    }
}

impl MvtProvider {
    pub fn new(config: MvtProviderConfig) -> (r: Self)
        ensures
            r.config == config,
    {
        Self { config }
    }

    /// Turns the fetched bytes of `tile_id` into its scene (see [`scene_of_bytes`]).
    /// The bytes are what the network or the tile cache handed back.
    pub fn scene_from_bytes(&self, tile_id: TileId, bytes: &[u8]) -> (r: Result<TileSceneData, TileDecodeError>)
        ensures
            match scene_of_bytes(self.config, tile_id, bytes@) {
                Some(layers) => r matches Ok(s) && s@.tile_id == tile_id && s@.layers == layers,
                None => r is Err,
            },
    {
        let decoded = if bytes.len() == 0 {
            let d = DecodedMvtTile { roads: Vec::new(), polygons: Vec::new() };
            assert(roads_view(d.roads@) =~= Seq::empty());
            assert(polygons_view(d.polygons@) =~= Seq::empty());
            d
        } else {
            match decode_mvt_tile(bytes) {
                Ok(d) => d,
                Err(e) => return Err(e),
            }
        };
        Ok(map_decoded_tile_to_scene(tile_id, decoded, self.config.source_profile))
    }
}

} // verus!
