use mapweave::{
    classify_polygon_rings, decode_feature_class, decode_geometry_linestrings, decode_geometry_rings,
    decode_mvt_tile, decode_tile, map_decoded_tile_to_scene, zigzag_decode, LayerKind, LayerPayload,
    MvtFeature, MvtLayer, MvtSourceProfile, MvtValue, Point, RingRole, TileId,
};

fn p(x: i64, y: i64) -> Point {
    Point { x, y }
}

#[test]
fn decode_geometry_rings_splits_on_move_to_and_close_path() {
    // Square: MoveTo(0,0), LineTo(10,0)+(0,10), ClosePath
    let square = vec![9, 0, 0, 18, 20, 0, 20, 20, 15];
    let rings = decode_geometry_rings(&square).expect("square ring");
    assert_eq!(rings.len(), 1);
    assert_eq!(rings[0].len(), 3);

    // Two separate squares in one geometry buffer.
    let two_squares = vec![
        9, 0, 0, 18, 20, 0, 20, 20, 15, //
        9, 0, 0, 18, 20, 0, 20, 20, 15,
    ];
    let rings = decode_geometry_rings(&two_squares).expect("two rings");
    assert_eq!(rings.len(), 2);
    assert_eq!(rings[0].len(), 3);
    assert_eq!(rings[1].len(), 3);
}

#[test]
fn classify_polygon_rings_marks_holes_with_opposite_winding() {
    let exterior = vec![p(0, 0), p(4096, 0), p(4096, 4096), p(0, 4096)];
    let hole = vec![p(1024, 1024), p(1024, 3072), p(3072, 3072), p(3072, 1024)];

    let classified = classify_polygon_rings(vec![exterior, hole]);
    assert_eq!(classified.len(), 2);
    assert_eq!(classified[0].role, RingRole::Exterior);
    assert_eq!(classified[1].role, RingRole::Hole);
}

#[test]
fn zigzag_maps_even_to_positive_and_odd_to_negative() {
    assert_eq!(zigzag_decode(0), 0);
    assert_eq!(zigzag_decode(1), -1);
    assert_eq!(zigzag_decode(2), 1);
    assert_eq!(zigzag_decode(3), -2);
    assert_eq!(zigzag_decode(20), 10);
    assert_eq!(zigzag_decode(u32::MAX), i32::MIN);
    assert_eq!(zigzag_decode(u32::MAX - 1), i32::MAX);
}

#[test]
fn geometry_points_are_cumulative() {
    let lines = decode_geometry_linestrings(&[9, 4, 6, 18, 20, 0, 3, 3]).expect("line");
    assert_eq!(lines, vec![vec![p(2, 3), p(12, 3), p(10, 1)]]);
    // A second MoveTo starts a new line string at the current pen position.
    let lines = decode_geometry_linestrings(&[9, 2, 2, 10, 2, 0, 9, 0, 2]).expect("two lines");
    assert_eq!(lines, vec![vec![p(1, 1), p(2, 1)], vec![p(2, 2)]]);
}

#[test]
fn malformed_geometry_is_rejected() {
    // Unknown command id 3.
    assert!(decode_geometry_rings(&[11, 0, 0]).is_none());
    // MoveTo with one point but only one parameter.
    assert!(decode_geometry_rings(&[9, 0]).is_none());
    // No points at all.
    assert!(decode_geometry_rings(&[]).is_none());
    assert!(decode_geometry_rings(&[15]).is_none());
    // A MoveTo with a zero count yields nothing either.
    assert!(decode_geometry_linestrings(&[1]).is_none());
}

#[test]
fn classify_drops_degenerate_rings_and_starts_new_parts() {
    let a = vec![p(0, 0), p(10, 0), p(10, 10), p(0, 10)];
    let line = vec![p(0, 0), p(5, 5)];
    let flat = vec![p(0, 0), p(1, 1), p(2, 2)];
    let b = vec![p(20, 0), p(30, 0), p(30, 10)];
    let classified = classify_polygon_rings(vec![a.clone(), line, flat, b.clone()]);
    assert_eq!(classified.len(), 2);
    assert_eq!(classified[0].role, RingRole::Exterior);
    assert_eq!(classified[1].role, RingRole::Exterior);
    assert_eq!(classified[1].points, b);
    // A single ring is exterior whatever it looks like.
    let single = classify_polygon_rings(vec![vec![p(1, 1)]]);
    assert_eq!(single.len(), 1);
    assert_eq!(single[0].role, RingRole::Exterior);
    assert!(classify_polygon_rings(vec![]).is_empty());
}

fn varint(mut v: u64, out: &mut Vec<u8>) {
    while v >= 0x80 {
        out.push((v as u8 & 0x7f) | 0x80);
        v >>= 7;
    }
    out.push(v as u8);
}

fn key(tag: u32, wt: u8, out: &mut Vec<u8>) {
    varint(((tag as u64) << 3) | wt as u64, out);
}

fn bytes_field(tag: u32, data: &[u8], out: &mut Vec<u8>) {
    key(tag, 2, out);
    varint(data.len() as u64, out);
    out.extend_from_slice(data);
}

fn packed(tag: u32, values: &[u32], out: &mut Vec<u8>) {
    let mut body = Vec::new();
    for &v in values {
        varint(v as u64, &mut body);
    }
    bytes_field(tag, &body, out);
}

fn feature(id: u64, geom_type: u64, tags: &[u32], geometry: &[u32]) -> Vec<u8> {
    let mut f = Vec::new();
    key(1, 0, &mut f);
    varint(id, &mut f);
    packed(2, tags, &mut f);
    key(3, 0, &mut f);
    varint(geom_type, &mut f);
    packed(4, geometry, &mut f);
    f
}

fn string_value(s: &str) -> Vec<u8> {
    let mut v = Vec::new();
    bytes_field(1, s.as_bytes(), &mut v);
    v
}

fn layer(name: &str, features: &[Vec<u8>], keys: &[&str], values: &[Vec<u8>]) -> Vec<u8> {
    let mut l = Vec::new();
    key(15, 0, &mut l);
    varint(2, &mut l);
    bytes_field(1, name.as_bytes(), &mut l);
    for f in features {
        bytes_field(2, f, &mut l);
    }
    for k in keys {
        bytes_field(3, k.as_bytes(), &mut l);
    }
    for v in values {
        bytes_field(4, v, &mut l);
    }
    key(5, 0, &mut l);
    varint(4096, &mut l);
    l
}

fn sample_tile() -> Vec<u8> {
    let road = feature(7, 2, &[0, 0], &[9, 0, 0, 18, 20, 0, 0, 20]);
    let point = feature(8, 1, &[], &[9, 2, 2]);
    let transportation = layer("transportation", &[road, point], &["class"], &[string_value("motorway")]);
    let building = feature(9, 3, &[], &[9, 0, 0, 26, 20, 0, 0, 20, 19, 0, 15]);
    let buildings = layer("building", &[building], &[], &[]);
    let mut tile = Vec::new();
    bytes_field(3, &transportation, &mut tile);
    // An unknown extension field between layers is skipped.
    key(100, 0, &mut tile);
    varint(5, &mut tile);
    bytes_field(3, &buildings, &mut tile);
    tile
}

#[test]
fn decode_tile_reads_layers_features_and_tables() {
    let tile = decode_tile(&sample_tile()).expect("valid tile");
    assert_eq!(tile.layers.len(), 2);
    let t = &tile.layers[0];
    assert_eq!(t.name, "transportation");
    assert_eq!(t.version, 2);
    assert_eq!(t.extent, Some(4096));
    assert_eq!(t.keys, vec!["class".to_string()]);
    assert_eq!(t.values.len(), 1);
    assert_eq!(t.values[0].string_value.as_deref(), Some("motorway"));
    assert_eq!(t.features.len(), 2);
    assert_eq!(t.features[0].id, Some(7));
    assert_eq!(t.features[0].tags, vec![0, 0]);
    assert_eq!(t.features[0].geom_type, Some(2));
    assert_eq!(t.features[0].geometry, vec![9, 0, 0, 18, 20, 0, 0, 20]);
    assert_eq!(tile.layers[1].name, "building");
}

#[test]
fn decode_mvt_tile_splits_roads_and_polygons() {
    let decoded = decode_mvt_tile(&sample_tile()).expect("valid tile");
    assert_eq!(decoded.roads.len(), 1);
    let road = &decoded.roads[0];
    assert_eq!(road.id, 7);
    assert_eq!(road.class, "motorway");
    assert_eq!(road.source_layer, "transportation");
    assert_eq!(road.points_tile, vec![p(0, 0), p(10, 0), p(10, 10)]);
    assert_eq!(decoded.polygons.len(), 1);
    let building = &decoded.polygons[0];
    assert_eq!(building.id, 9);
    assert_eq!(building.class, "building");
    assert_eq!(building.rings.len(), 1);
    assert_eq!(building.rings[0].role, RingRole::Exterior);
    assert_eq!(building.rings[0].points, vec![p(0, 0), p(10, 0), p(10, 10), p(0, 10)]);
}

#[test]
fn empty_input_is_a_tile_without_layers() {
    let tile = decode_tile(&[]).expect("empty tile");
    assert!(tile.layers.is_empty());
    let decoded = decode_mvt_tile(&[]).expect("empty tile");
    assert!(decoded.roads.is_empty() && decoded.polygons.is_empty());
}

#[test]
fn malformed_tiles_are_rejected() {
    // Truncated varint.
    assert!(decode_tile(&[0x80]).is_err());
    // Layers field with the wrong wire type.
    assert!(decode_tile(&[0x18, 0x01]).is_err());
    // Length beyond the input.
    assert!(decode_tile(&[0x1a, 0x05, 0x00]).is_err());
    // Tag 0.
    assert!(decode_tile(&[0x02, 0x00]).is_err());
    // Wire type 7.
    assert!(decode_tile(&[0x0f]).is_err());
    // A layer name that is not UTF-8.
    let mut l = Vec::new();
    bytes_field(1, &[0xff, 0xfe], &mut l);
    let mut t = Vec::new();
    bytes_field(3, &l, &mut t);
    assert!(decode_tile(&t).is_err());
    assert!(decode_mvt_tile(&t).is_err());
}

#[test]
fn unpacked_repeated_fields_are_accepted() {
    let mut f = Vec::new();
    key(2, 0, &mut f);
    varint(4, &mut f);
    key(2, 0, &mut f);
    varint(5, &mut f);
    key(3, 0, &mut f);
    varint(3, &mut f);
    let l = layer("x", &[f], &[], &[]);
    let mut t = Vec::new();
    bytes_field(3, &l, &mut t);
    let tile = decode_tile(&t).expect("valid");
    assert_eq!(tile.layers[0].features[0].tags, vec![4, 5]);
    assert_eq!(tile.layers[0].features[0].geom_type, Some(3));
}

fn mvt_layer(name: &str, keys: &[&str], values: &[Option<&str>]) -> MvtLayer {
    MvtLayer {
        version: 2,
        name: name.to_string(),
        features: Vec::new(),
        keys: keys.iter().map(|k| k.to_string()).collect(),
        values: values.iter().map(|v| MvtValue { string_value: v.map(|s| s.to_string()) }).collect(),
        extent: None,
    }
}

fn mvt_feature(tags: &[u32]) -> MvtFeature {
    MvtFeature { id: None, tags: tags.to_vec(), geom_type: Some(2), geometry: Vec::new() }
}

#[test]
fn feature_class_falls_back_to_layer_name() {
    let l = mvt_layer("water", &["name", "class"], &[Some("Turia"), None, Some("river")]);
    assert_eq!(decode_feature_class(&l, &mvt_feature(&[1, 2])), "river");
    // `class` pointing at a non-string value is skipped.
    assert_eq!(decode_feature_class(&l, &mvt_feature(&[1, 1, 1, 2])), "river");
    // No class tag, out-of-range indices, odd tag count.
    assert_eq!(decode_feature_class(&l, &mvt_feature(&[0, 0])), "water");
    assert_eq!(decode_feature_class(&l, &mvt_feature(&[5, 2, 1])), "water");
    assert_eq!(decode_feature_class(&l, &mvt_feature(&[1])), "water");
}

#[test]
fn mapping_routes_features_by_source_layer() {
    let decoded = decode_mvt_tile(&sample_tile()).expect("valid tile");
    let scene = map_decoded_tile_to_scene(TileId::new(14, 8174, 6234), decoded, MvtSourceProfile::OpenMapTiles);
    assert_eq!(scene.tile_id, TileId::new(14, 8174, 6234));
    assert_eq!(scene.layers.len(), 3);
    assert_eq!(scene.layers[0].kind, LayerKind::Background);
    match &scene.layers[1].payload {
        LayerPayload::Buildings(b) => assert_eq!(b.len(), 1),
        _ => panic!("buildings expected"),
    }
    match &scene.layers[2].payload {
        LayerPayload::Roads(r) => assert_eq!(r.len(), 1),
        _ => panic!("roads expected"),
    }

    let decoded = decode_mvt_tile(&sample_tile()).expect("valid tile");
    let scene = map_decoded_tile_to_scene(TileId::new(1, 1, 0), decoded, MvtSourceProfile::MapLibreDemo);
    for layer in &scene.layers {
        match &layer.payload {
            LayerPayload::Background(v) | LayerPayload::Buildings(v) => assert!(v.is_empty()),
            LayerPayload::Roads(v) => assert!(v.is_empty()),
            LayerPayload::Empty => panic!("no empty payload"),
        }
    }
}

fn nested_group(tag: u32, depth: usize, out: &mut Vec<u8>) {
    for _ in 0..depth {
        key(tag, 3, out);
    }
    for _ in 0..depth {
        key(tag, 4, out);
    }
}

fn tile_with_feature_tail(depth: usize) -> Vec<u8> {
    let mut f = feature(1, 2, &[], &[9, 0, 0, 10, 2, 0]);
    nested_group(9, depth, &mut f);
    let l = layer("x", &[f], &[], &[]);
    let mut t = Vec::new();
    bytes_field(3, &l, &mut t);
    t
}

#[test]
fn unknown_groups_are_skipped_within_the_nesting_limit() {
    // Inside a feature, 98 levels of nesting are left.
    assert!(decode_tile(&tile_with_feature_tail(98)).is_ok());
    assert!(decode_tile(&tile_with_feature_tail(99)).is_err());
    // At the top of the tile, 100 levels are left.
    let mut t = Vec::new();
    nested_group(9, 100, &mut t);
    assert!(decode_tile(&t).expect("nested groups").layers.is_empty());
    let mut t = Vec::new();
    nested_group(9, 101, &mut t);
    assert!(decode_tile(&t).is_err());
    // An end key with another tag is an error.
    let mut t = Vec::new();
    key(9, 3, &mut t);
    key(8, 4, &mut t);
    assert!(decode_tile(&t).is_err());
}
