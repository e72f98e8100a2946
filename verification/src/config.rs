use vstd::prelude::*;

verus! {

/// Which MVT schema / source-layer names to expect when mapping tiles to scene data.
#[derive(Clone, Copy, Debug, PartialEq, Eq, Structural)]
pub enum MvtSourceProfile {
    /// OpenMapTiles schema (OpenFreeMap, self-hosted Planetiler output, etc.).
    OpenMapTiles,
    /// MapLibre demo tiles: coarse country polygons, max zoom 6 only.
    MapLibreDemo,
}

#[derive(Clone, Debug)]
pub struct MvtProviderConfig {
    /// Slippy-map URL template with `{z}`, `{x}`, `{y}` placeholders.
    pub endpoint_template: String,
    /// When set, resolving the endpoint fetches TileJSON and overwrites `endpoint_template`.
    pub tilejson_url: Option<String>,
    pub source_profile: MvtSourceProfile,
    pub access_token: String,
    pub cache_dir: Option<String>,
}

pub open spec fn opt_view(o: Option<String>) -> Option<Seq<char>> {
    match o {
        Some(s) => Some(s@),
        None => None,
    }
}

/// The OpenFreeMap configuration.
pub open spec fn is_openfreemap(c: MvtProviderConfig) -> bool {
    &&& c.endpoint_template@ == Seq::<char>::empty()
    &&& opt_view(c.tilejson_url) == Some("https://tiles.openfreemap.org/planet"@)
    &&& c.source_profile == MvtSourceProfile::OpenMapTiles
    &&& c.access_token@ == Seq::<char>::empty()
    &&& opt_view(c.cache_dir) == Some("./data-cache-openfreemap"@)
}

impl MvtProviderConfig {
    /// OpenStreetMap vector tiles via OpenFreeMap (no API key, zoom 0-14); the
    /// endpoint template is resolved from TileJSON.
    pub fn openfreemap() -> (r: Self)
        ensures
            is_openfreemap(r),
    {
        Self {
            endpoint_template: String::new(),
            tilejson_url: Some("https://tiles.openfreemap.org/planet".to_owned()),
            source_profile: MvtSourceProfile::OpenMapTiles,
            access_token: String::new(),
            cache_dir: Some("./data-cache-openfreemap".to_owned()),
        }
    }

    /// MapLibre global demo: country outlines only, max zoom 6.
    pub fn demotiles() -> (r: Self)
        ensures
            r.endpoint_template@ == "https://demotiles.maplibre.org/tiles/{z}/{x}/{y}.pbf"@,
            r.tilejson_url is None,
            r.source_profile == MvtSourceProfile::MapLibreDemo,
            r.access_token@ == Seq::<char>::empty(),
            opt_view(r.cache_dir) == Some("./data-cache-root"@),
    {
        Self {
            endpoint_template: "https://demotiles.maplibre.org/tiles/{z}/{x}/{y}.pbf".to_owned(),
            tilejson_url: None,
            source_profile: MvtSourceProfile::MapLibreDemo,
            access_token: String::new(),
            cache_dir: Some("./data-cache-root".to_owned()),
        }
    }

    /// The default configuration is OpenFreeMap's.
    pub fn default() -> (r: Self)
        ensures
            is_openfreemap(r),
    {
        Self::openfreemap()
    }
}

} // verus!
