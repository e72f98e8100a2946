use mapweave::{
    max_tile_index, merge_tiles_into_scene, merge_tiles_into_scene_relative, tile_to_world_scale,
    tile_world_origin, tiles_in_index_range, world_units_per_tile, LayerKind, LayerPayload, Point,
    PolygonFeature, PolygonRing, RingRole, RoadFeature, TileId, TileLayerData, TileSceneData,
    MIN_TILE_ZOOM, TILE_EXTENT, WORLD_ZOOM,
};

#[test]
fn tile_world_origin_uses_world_zoom_scale() {
    let tile = TileId::new(10, 511, 389);
    let o = tile_world_origin(tile);
    let span = TILE_EXTENT as f64 * 16.0; // 2^(14-10)
    assert_eq!(o.x as f64, 511.0 * span);
    assert_eq!(o.y as f64, 389.0 * span);
}

#[test]
fn tiles_in_world_rect_covers_single_tile() {
    let tile = TileId::new(10, 2, 3);
    let o = tile_world_origin(tile);
    let (x_min, x_max, z_min, z_max) = (
        o.x as f64 + 100.0,
        o.x as f64 + 200.0,
        o.y as f64 + 100.0,
        o.y as f64 + 200.0,
    );
    let span = world_units_per_tile(10) as f64;
    let max_index = max_tile_index(10) as f64;
    let col = |v: f64| (v / span).floor().clamp(0.0, max_index) as u32;
    let tiles = tiles_in_index_range(10, col(x_min), col(x_max), col(z_min), col(z_max));
    assert_eq!(tiles, vec![tile]);
}

#[test]
fn parent_and_child_share_aligned_origins() {
    // z14 child (8174,6234) sits inside z10 parent (510,389): 8174>>4 == 510.
    let child = TileId::new(14, 8174, 6234);
    let parent = TileId::new(10, 510, 389);
    let c = tile_world_origin(child);
    let p = tile_world_origin(parent);
    let span = world_units_per_tile(10) as i64;
    assert!(c.x >= p.x && c.x < p.x + span);
    assert!(c.y >= p.y && c.y < p.y + span);
}

#[test]
fn spans_and_scales_per_zoom() {
    assert_eq!(world_units_per_tile(WORLD_ZOOM), 4096);
    assert_eq!(world_units_per_tile(MIN_TILE_ZOOM), 4096 * 16);
    assert_eq!(world_units_per_tile(0), 4096 * 16384);
    assert_eq!(world_units_per_tile(18), 4096);
    assert_eq!(tile_to_world_scale(13), 2);
    assert_eq!(tile_to_world_scale(14), 1);
    assert_eq!(tile_to_world_scale(20), 1);
    assert_eq!(max_tile_index(0), 0);
    assert_eq!(max_tile_index(10), 1023);
    assert_eq!(max_tile_index(14), 16383);
}

#[test]
fn index_range_is_column_major() {
    let tiles = tiles_in_index_range(3, 1, 2, 5, 7);
    assert_eq!(
        tiles,
        vec![
            TileId::new(3, 1, 5),
            TileId::new(3, 1, 6),
            TileId::new(3, 1, 7),
            TileId::new(3, 2, 5),
            TileId::new(3, 2, 6),
            TileId::new(3, 2, 7),
        ]
    );
    assert!(tiles_in_index_range(3, 2, 1, 0, 0).is_empty());
    assert!(tiles_in_index_range(3, 0, 0, 4, 3).is_empty());
}

fn road(id: u64, pts: &[(i64, i64)]) -> RoadFeature {
    RoadFeature {
        id,
        class: "primary".to_string(),
        source_layer: "transportation".to_string(),
        points_tile: pts.iter().map(|&(x, y)| Point { x, y }).collect(),
    }
}

fn square(id: u64, layer: &str) -> PolygonFeature {
    PolygonFeature {
        id,
        class: layer.to_string(),
        source_layer: layer.to_string(),
        rings: vec![PolygonRing {
            points: vec![Point { x: 0, y: 0 }, Point { x: 10, y: 0 }, Point { x: 10, y: 10 }],
            role: RingRole::Exterior,
        }],
    }
}

fn scene(tile_id: TileId) -> TileSceneData {
    TileSceneData {
        tile_id,
        layers: vec![
            TileLayerData { kind: LayerKind::Background, payload: LayerPayload::Background(vec![square(1, "water")]) },
            TileLayerData { kind: LayerKind::Buildings, payload: LayerPayload::Buildings(vec![square(2, "building")]) },
            TileLayerData { kind: LayerKind::Roads, payload: LayerPayload::Roads(vec![road(3, &[(1, 2), (3, 4)])]) },
            TileLayerData { kind: LayerKind::Labels, payload: LayerPayload::Empty },
        ],
    }
}

fn roads_of(s: &TileSceneData) -> Vec<RoadFeature> {
    let mut out = Vec::new();
    for l in &s.layers {
        if let LayerPayload::Roads(r) = &l.payload {
            out.extend(r.iter().cloned());
        }
    }
    out
}

#[test]
fn merge_scales_and_shifts_into_world_space() {
    let a = scene(TileId::new(10, 2, 3));
    let b = scene(TileId::new(14, 5, 6));
    let merged = merge_tiles_into_scene(&[&a, &b]);
    assert_eq!(merged.tile_id, TileId::new(0, 0, 0));
    assert_eq!(merged.layers.len(), 3);
    assert_eq!(merged.layers[0].kind, LayerKind::Background);
    assert_eq!(merged.layers[1].kind, LayerKind::Buildings);
    assert_eq!(merged.layers[2].kind, LayerKind::Roads);
    let roads = roads_of(&merged);
    assert_eq!(roads.len(), 2);
    // z10 tile: scale 16, origin (2 * 65536, 3 * 65536).
    assert_eq!(roads[0].points_tile[0], Point { x: 16 + 2 * 65536, y: 32 + 3 * 65536 });
    assert_eq!(roads[0].points_tile[1], Point { x: 48 + 2 * 65536, y: 64 + 3 * 65536 });
    // z14 tile: scale 1, origin (5 * 4096, 6 * 4096).
    assert_eq!(roads[1].points_tile[0], Point { x: 1 + 5 * 4096, y: 2 + 6 * 4096 });
    assert_eq!(roads[1].id, 3);
    assert_eq!(roads[1].class, "primary");
    if let LayerPayload::Buildings(b) = &merged.layers[1].payload {
        assert_eq!(b.len(), 2);
        assert_eq!(b[0].rings[0].points[1], Point { x: 160 + 2 * 65536, y: 3 * 65536 });
    } else {
        panic!("buildings layer expected");
    }
}

#[test]
fn relative_merge_subtracts_the_origin() {
    let a = scene(TileId::new(14, 5, 6));
    let origin = Point { x: 5 * 4096, y: 6 * 4096 };
    let merged = merge_tiles_into_scene_relative(&[&a], origin);
    let roads = roads_of(&merged);
    assert_eq!(roads[0].points_tile, vec![Point { x: 1, y: 2 }, Point { x: 3, y: 4 }]);
}

#[test]
fn merging_nothing_gives_three_empty_layers() {
    let merged = merge_tiles_into_scene(&[]);
    assert_eq!(merged.layers.len(), 3);
    for l in &merged.layers {
        match &l.payload {
            LayerPayload::Background(v) | LayerPayload::Buildings(v) => assert!(v.is_empty()),
            LayerPayload::Roads(v) => assert!(v.is_empty()),
            LayerPayload::Empty => panic!("no empty payload expected"),
        }
    }
}
