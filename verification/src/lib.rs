//! MapWeave: the data side of a vector-map viewer, verified with Verus.
//!
//! The crate decodes Mapbox Vector Tiles (the protobuf envelope and the
//! geometry command streams), classifies polygon rings by winding, routes
//! decoded features into scene layers, merges tiles into one world-space
//! scene, and holds the tile arithmetic, URL templating, road styling and
//! job bookkeeping that the viewer runs on.

mod tile;
mod feature;
mod geometry;
mod protobuf;
mod vector_tile;
mod text;
mod decode;
mod scene;
mod config;
mod map;
mod geo;
mod fetch;
mod provider;
mod stats;
mod runtime;
mod error;
mod sort;
mod viewer;
mod triangulate;
mod road_style;

pub use config::{MvtProviderConfig, MvtSourceProfile};
pub use decode::{
    classify_polygon_rings, decode_feature_class, decode_mvt_tile, decode_polygon_feature,
    decode_road_feature, DecodedMvtTile,
};
pub use error::CoreError;
pub use feature::{Point, PolygonFeature, PolygonRing, RingRole, RoadFeature};
pub use fetch::{build_tile_cache_path, build_tile_url};
pub use geo::{
    max_tile_index, merge_tiles_into_scene, merge_tiles_into_scene_relative, tile_to_world_scale,
    tile_world_origin, tiles_in_index_range, world_units_per_tile, DEFAULT_ZOOM, MIN_TILE_ZOOM,
    TILE_EXTENT, WORLD_ZOOM,
};
pub use geometry::{decode_geometry_linestrings, decode_geometry_rings, zigzag_decode};
pub use map::map_decoded_tile_to_scene;
pub use protobuf::TileDecodeError;
pub use provider::MvtProvider;
pub use road_style::{road_style, roads_in_draw_order, Rgba, RoadStyle};
pub use runtime::{
    worker_action, DataJob, InFlightTiles, WorkerAction, WorkerMsg, WorkerState, DEFAULT_TILE_FETCH_CONCURRENCY,
};
pub use scene::{LayerKind, LayerPayload, TileLayerData, TileSceneData};
pub use stats::RenderStats;
pub use tile::TileId;
pub use triangulate::{ring_groups, RingGroup};
pub use vector_tile::{decode_tile, MvtFeature, MvtLayer, MvtTile, MvtValue};
pub use viewer::{display_tiles, format_tile_ids, select_tiles_to_fetch};
