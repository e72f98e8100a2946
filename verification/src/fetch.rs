//! Tile addresses: the URL a tile is fetched from and the path it is cached at.
use vstd::prelude::*;

use crate::config::MvtProviderConfig;
use crate::text::{chars_of, decimal, push_decimal, replace_all, replace_chars, string_of};
use crate::tile::TileId;

verus! {

/// The tile URL: the endpoint template with `{z}`, `{x}`, `{y}` replaced by
/// the tile's decimal zoom, column and row, then `{access_token}` by the token.
pub open spec fn tile_url(template: Seq<char>, token: Seq<char>, tile_id: TileId) -> Seq<char> {
    replace_all(
        replace_all(
            replace_all(replace_all(template, "{z}"@, decimal(tile_id.z as nat)), "{x}"@, decimal(tile_id.x as nat)),
            "{y}"@,
            decimal(tile_id.y as nat),
        ),
        "{access_token}"@,
        token,
    )
}

fn decimal_chars(n: u64) -> (r: Vec<char>)
    ensures
        r@ == decimal(n as nat),
{
    let mut out: Vec<char> = Vec::new();
    push_decimal(&mut out, n);
    assert(out@ =~= decimal(n as nat));
    out
}

/// Expands the configured endpoint template for one tile (see [`tile_url`]).
pub fn build_tile_url(config: &MvtProviderConfig, tile_id: TileId) -> (r: String)
    ensures
        r@ == tile_url(config.endpoint_template@, config.access_token@, tile_id),
{
    let template = chars_of(config.endpoint_template.as_str());
    let with_z = replace_chars(&template, &chars_of("{z}"), &decimal_chars(tile_id.z as u64));
    let with_x = replace_chars(&with_z, &chars_of("{x}"), &decimal_chars(tile_id.x as u64));
    let with_y = replace_chars(&with_x, &chars_of("{y}"), &decimal_chars(tile_id.y as u64));
    let url = replace_chars(&with_y, &chars_of("{access_token}"), &chars_of(config.access_token.as_str()));
    string_of(&url)
}

/// A path below `dir`: `dir` followed by a `/` unless `dir` is empty or
/// already ends in one, then `component` (how a relative component is
/// pushed onto a Unix path).
pub open spec fn path_join(dir: Seq<char>, component: Seq<char>) -> Seq<char> {
    if dir.len() == 0 || dir.last() == '/' {
        dir + component
    } else {
        dir + seq!['/'] + component
    }
}

/// Where a tile is cached: `cache_dir/z/x/y.pbf`.
pub open spec fn tile_cache_path(cache_dir: Seq<char>, tile_id: TileId) -> Seq<char> {
    path_join(
        path_join(path_join(cache_dir, decimal(tile_id.z as nat)), decimal(tile_id.x as nat)),
        decimal(tile_id.y as nat) + ".pbf"@,
    )
}

fn push_path_component(path: &mut Vec<char>, component: &Vec<char>)
    ensures
        final(path)@ == path_join(old(path)@, component@),
{
    let n = path.len();
    if n > 0 && path[n - 1] != '/' {
        path.push('/');
    }
    let ghost base = path@;
    let mut i: usize = 0;
    while i < component.len()
        invariant
            i <= component@.len(),
            path@ == base + component@.take(i as int),
        decreases component@.len() - i,
    {
        path.push(component[i]);
        i += 1;
        assert(path@ =~= base + component@.take(i as int));
    }
    assert(component@.take(component@.len() as int) =~= component@);
    proof {
        if old(path)@.len() > 0 && old(path)@.last() != '/' {
            assert(base =~= old(path)@ + seq!['/']);
        }
    }
}

/// The path a tile is cached at below `cache_dir` (see [`tile_cache_path`]).
pub fn build_tile_cache_path(cache_dir: &str, tile_id: TileId) -> (r: String)
    ensures
        r@ == tile_cache_path(cache_dir@, tile_id),
{
    let mut path = chars_of(cache_dir);
    push_path_component(&mut path, &decimal_chars(tile_id.z as u64));
    push_path_component(&mut path, &decimal_chars(tile_id.x as u64));
    let mut file = decimal_chars(tile_id.y as u64);
    let ext = chars_of(".pbf");
    let ghost y_digits = file@;
    let mut i: usize = 0;
    while i < ext.len()
        invariant
            i <= ext@.len(),
            file@ == y_digits + ext@.take(i as int),
        decreases ext@.len() - i,
    {
        file.push(ext[i]);
        i += 1;
        assert(file@ =~= y_digits + ext@.take(i as int));
    }
    assert(ext@.take(ext@.len() as int) =~= ext@);
    push_path_component(&mut path, &file);
    string_of(&path)
}

} // verus!
