use mapweave::{
    build_tile_cache_path, build_tile_url, display_tiles, format_tile_ids, ring_groups, road_style,
    roads_in_draw_order, select_tiles_to_fetch, CoreError, DataJob, InFlightTiles, MvtProvider,
    MvtProviderConfig, MvtSourceProfile, Point, PolygonFeature, PolygonRing, RenderStats, RingRole,
    RoadFeature, TileId, WorkerAction, WorkerMsg, WorkerState, worker_action, DEFAULT_TILE_FETCH_CONCURRENCY,
};

#[test]
fn demotiles_url_expands_placeholders() {
    let config = MvtProviderConfig::demotiles();
    assert_eq!(
        build_tile_url(&config, TileId::new(1, 1, 0)),
        "https://demotiles.maplibre.org/tiles/1/1/0.pbf"
    );
    assert_eq!(
        build_tile_url(&config, TileId::new(14, 8174, 6234)),
        "https://demotiles.maplibre.org/tiles/14/8174/6234.pbf"
    );
}

#[test]
fn url_template_with_token_and_repeats() {
    let mut config = MvtProviderConfig::demotiles();
    config.endpoint_template = "https://t/{z}/{x}/{y}/{z}.mvt?key={access_token}".to_string();
    config.access_token = "SECRET-REDACTED".to_string();
    assert_eq!(
        build_tile_url(&config, TileId::new(10, 510, 389)),
        "https://t/10/510/389/10.mvt?key=SECRET-REDACTED"
    );
    config.endpoint_template = String::new();
    assert_eq!(build_tile_url(&config, TileId::new(0, 0, 0)), "");
}

#[test]
fn configs_hold_their_presets() {
    let ofm = MvtProviderConfig::openfreemap();
    assert!(ofm.endpoint_template.is_empty());
    assert_eq!(ofm.tilejson_url.as_deref(), Some("https://tiles.openfreemap.org/planet"));
    assert_eq!(ofm.source_profile, MvtSourceProfile::OpenMapTiles);
    assert_eq!(ofm.cache_dir.as_deref(), Some("./data-cache-openfreemap"));
    let def = MvtProviderConfig::default();
    assert_eq!(def.tilejson_url, ofm.tilejson_url);
    let demo = MvtProviderConfig::demotiles();
    assert!(demo.tilejson_url.is_none());
    assert_eq!(demo.source_profile, MvtSourceProfile::MapLibreDemo);
    assert_eq!(demo.cache_dir.as_deref(), Some("./data-cache-root"));
    let provider = MvtProvider::new(demo.clone());
    assert_eq!(provider.config.endpoint_template, demo.endpoint_template);
}

#[test]
fn provider_maps_empty_bytes_to_empty_scene() {
    let provider = MvtProvider::new(MvtProviderConfig::demotiles());
    let scene = provider.scene_from_bytes(TileId::new(1, 1, 0), &[]).expect("empty scene");
    assert_eq!(scene.tile_id, TileId::new(1, 1, 0));
    assert_eq!(scene.layers.len(), 3);
    assert!(provider.scene_from_bytes(TileId::new(1, 1, 0), &[0xff]).is_err());
}

#[test]
fn cache_paths_join_components() {
    let t = TileId::new(14, 8174, 6234);
    assert_eq!(build_tile_cache_path("./data-cache-root", t), "./data-cache-root/14/8174/6234.pbf");
    assert_eq!(build_tile_cache_path("/tmp/cache/", t), "/tmp/cache/14/8174/6234.pbf");
    assert_eq!(build_tile_cache_path("", t), "14/8174/6234.pbf");
}

#[test]
fn tile_ids_are_sorted_and_truncated() {
    let tiles = vec![
        TileId::new(14, 2, 1),
        TileId::new(10, 9, 9),
        TileId::new(14, 1, 7),
        TileId::new(14, 1, 3),
    ];
    assert_eq!(format_tile_ids(&tiles, 8), "10/9/9,14/1/3,14/1/7,14/2/1");
    assert_eq!(format_tile_ids(&tiles, 2), "10/9/9,14/1/3\u{2026}(+2)");
    assert_eq!(format_tile_ids(&tiles, 0), "\u{2026}(+4)");
    assert_eq!(format_tile_ids(&[], 3), "");
}

fn road(id: u64, layer: &str, class: &str) -> RoadFeature {
    RoadFeature { id, class: class.into(), source_layer: layer.into(), points_tile: vec![] }
}

#[test]
fn motorway_style_is_wider_and_warmer_than_path() {
    let motorway = road(1, "transportation", "motorway");
    let path = road(2, "transportation", "path");
    let m = road_style(&motorway);
    let p = road_style(&path);
    assert!(m.half_width_tenths > p.half_width_tenths);
    assert!(m.color.r > p.color.r);
    assert!(m.draw_order > p.draw_order);
}

#[test]
fn style_table_values() {
    let w = road_style(&road(1, "waterway", "motorway"));
    assert_eq!((w.color.r, w.color.g, w.color.b, w.color.a), (250, 550, 780, 1000));
    assert_eq!(w.half_width_tenths, 45);
    assert_eq!(w.draw_order, 0);
    let rail = road_style(&road(1, "transportation", "rail"));
    assert_eq!((rail.half_width_tenths, rail.draw_order), (30, 9));
    let other = road(1, "transportation", "something");
    assert_eq!(road_style(&other).half_width_tenths, 35);
    assert_eq!(road_style(&other).draw_order, 3);
}

#[test]
fn roads_draw_minor_first_and_keep_ties_in_order() {
    let roads = vec![
        road(0, "transportation", "motorway"),
        road(1, "transportation", "path"),
        road(2, "waterway", "river"),
        road(3, "transportation", "track"),
        road(4, "transportation", "rail"),
    ];
    assert_eq!(roads_in_draw_order(&roads), vec![2, 1, 3, 0, 4]);
}

#[test]
fn render_stats_accumulate() {
    let mut s = RenderStats::default();
    assert_eq!(s, RenderStats { draw_calls: 0, triangles: 0 });
    s.merge(RenderStats::from_triangle_list_vertices(10));
    s.merge(RenderStats::from_triangle_list_vertices(6));
    assert_eq!(s, RenderStats { draw_calls: 2, triangles: 5 });
}

#[test]
fn in_flight_tiles_are_deduplicated() {
    let mut in_flight = InFlightTiles::new();
    let t = TileId::new(14, 1, 2);
    assert!(in_flight.submit(&DataJob::TileFetch { tile_id: t, priority: 0 }));
    assert!(!in_flight.submit(&DataJob::TileFetch { tile_id: t, priority: 5 }));
    assert!(in_flight.contains(t));
    assert_eq!(in_flight.len(), 1);
    assert!(in_flight.submit(&DataJob::ProviderInit { config: MvtProviderConfig::demotiles() }));
    assert_eq!(in_flight.len(), 1);
    assert!(in_flight.accept(TileId::new(14, 1, 3)));
    assert_eq!(in_flight.len(), 2);
    in_flight.release(t);
    assert!(!in_flight.contains(t));
    assert_eq!(in_flight.len(), 1);
    in_flight.release(t);
    assert_eq!(in_flight.len(), 1);
    assert!(in_flight.accept(t));
    assert_eq!(DEFAULT_TILE_FETCH_CONCURRENCY, 8);
}

#[test]
fn core_error_message() {
    let e = CoreError::TileUnavailable { z: 14, x: 8174, y: 6234 };
    assert_eq!(e.message(), "tile 14/8174/6234 not available");
}

#[test]
fn fetch_selection_skips_cached_and_caps() {
    let w: Vec<TileId> = (0..12).map(|i| TileId::new(14, i, 0)).collect();
    let cached = vec![TileId::new(14, 1, 0), TileId::new(14, 3, 0)];
    let pick = select_tiles_to_fetch(&w, &cached, 9);
    assert_eq!(pick.len(), 9);
    assert_eq!(pick[0], TileId::new(14, 0, 0));
    assert_eq!(pick[1], TileId::new(14, 2, 0));
    assert_eq!(pick[2], TileId::new(14, 4, 0));
    assert!(select_tiles_to_fetch(&w[..2], &cached, 9) == vec![TileId::new(14, 0, 0)]);
}

#[test]
fn display_keeps_old_tiles_while_loading() {
    let a = TileId::new(14, 0, 0);
    let b = TileId::new(14, 1, 0);
    let old = TileId::new(14, 5, 5);
    let coarse = TileId::new(10, 0, 0);
    // Incomplete: b is not cached yet, so the cached old tile of this zoom stays.
    let mut shown = display_tiles(&[a, b], &[a, old, coarse], &[old, coarse], 14);
    shown.sort_by_key(|t| (t.z, t.x, t.y));
    assert_eq!(shown, vec![a, old]);
    // Complete: only the wanted tiles.
    let shown = display_tiles(&[a, b], &[a, b, old], &[old], 14);
    assert_eq!(shown.len(), 2);
    assert!(shown.contains(&a) && shown.contains(&b));
}

#[test]
fn ring_groups_attach_holes_to_the_latest_exterior() {
    let sq = |o: i64| vec![Point { x: o, y: o }, Point { x: o + 1, y: o }, Point { x: o + 1, y: o + 1 }];
    let polygon = PolygonFeature {
        id: 1,
        class: String::new(),
        source_layer: String::new(),
        rings: vec![
            PolygonRing { points: sq(100), role: RingRole::Hole },
            PolygonRing { points: sq(0), role: RingRole::Exterior },
            PolygonRing { points: sq(1), role: RingRole::Hole },
            PolygonRing { points: vec![Point { x: 0, y: 0 }], role: RingRole::Hole },
            PolygonRing { points: sq(10), role: RingRole::Exterior },
        ],
    };
    let groups = ring_groups(&polygon);
    assert_eq!(groups.len(), 2);
    assert_eq!(groups[0].0, sq(0));
    assert_eq!(groups[0].1, vec![sq(1)]);
    assert_eq!(groups[1].0, sq(10));
    assert!(groups[1].1.is_empty());
}

#[test]
fn tile_text_does_not_depend_on_listing_order() {
    let a = vec![TileId::new(14, 2, 1), TileId::new(10, 9, 9), TileId::new(14, 1, 7)];
    let b = vec![TileId::new(14, 1, 7), TileId::new(14, 2, 1), TileId::new(10, 9, 9)];
    for limit in 0..4 {
        assert_eq!(format_tile_ids(&a, limit), format_tile_ids(&b, limit));
    }
}

#[test]
fn worker_fails_tiles_until_provider_is_ready() {
    let t = TileId::new(14, 3, 4);
    match worker_action(DataJob::TileFetch { tile_id: t, priority: 1 }, false) {
        WorkerAction::FailNotReady { tile_id } => assert_eq!(tile_id, t),
        _ => panic!("expected a not-ready failure"),
    }
    match worker_action(DataJob::TileFetch { tile_id: t, priority: 1 }, true) {
        WorkerAction::FetchTile { tile_id } => assert_eq!(tile_id, t),
        _ => panic!("expected a fetch"),
    }
    match worker_action(DataJob::ProviderInit { config: MvtProviderConfig::demotiles() }, false) {
        WorkerAction::InitProvider { config } => assert_eq!(config.source_profile, MvtSourceProfile::MapLibreDemo),
        _ => panic!("expected provider initialisation"),
    }
}

#[test]
fn draining_a_batch_releases_its_tiles() {
    let mut in_flight = InFlightTiles::new();
    let a = TileId::new(14, 1, 1);
    let b = TileId::new(14, 1, 2);
    let c = TileId::new(14, 1, 3);
    assert!(in_flight.accept(a));
    assert!(in_flight.accept(b));
    assert!(in_flight.accept(c));
    in_flight.release_all(&[a, c, TileId::new(14, 9, 9)]);
    assert_eq!(in_flight.len(), 1);
    assert!(!in_flight.contains(a));
    assert!(in_flight.contains(b));
    assert!(!in_flight.contains(c));
}

#[test]
fn worker_state_runs_jobs_until_shutdown() {
    let t = TileId::new(14, 5, 6);
    let mut state = WorkerState::new();
    assert!(matches!(
        state.next_action(WorkerMsg::Job(DataJob::TileFetch { tile_id: t, priority: 0 })),
        Some(WorkerAction::FailNotReady { tile_id }) if tile_id == t
    ));
    assert!(matches!(
        state.next_action(WorkerMsg::Job(DataJob::ProviderInit { config: MvtProviderConfig::demotiles() })),
        Some(WorkerAction::InitProvider { .. })
    ));
    state.provider_resolved(false);
    assert!(!state.provider_ready);
    state.provider_resolved(true);
    state.provider_resolved(false);
    assert!(state.provider_ready);
    assert!(matches!(
        state.next_action(WorkerMsg::Job(DataJob::TileFetch { tile_id: t, priority: 0 })),
        Some(WorkerAction::FetchTile { tile_id }) if tile_id == t
    ));
    assert!(state.next_action(WorkerMsg::Shutdown).is_none());
}
