//! Decisions of the viewer's tile synchronisation that do not touch the
//! GPU, the network or the clock.
use vstd::prelude::*;

use crate::sort::{key_order, lemma_key_order_total, sort_keys, Key};
use crate::text::{decimal, push_decimal, push_str_chars, string_of};
use crate::tile::TileId;

verus! {

pub open spec fn tile_key(t: TileId) -> Key {
    (t.z as u64, t.x as u64, t.y as u64)
}

/// `z/x/y` of a tile key.
pub open spec fn key_label(k: Key) -> Seq<char> {
    decimal(k.0 as nat) + "/"@ + decimal(k.1 as nat) + "/"@ + decimal(k.2 as nat)
}

/// The labels of `ks`, separated by commas.
pub open spec fn join_labels(ks: Seq<Key>) -> Seq<char>
    decreases ks.len(),
{
    if ks.len() == 0 {
        Seq::empty()
    } else if ks.len() == 1 {
        key_label(ks[0])
    } else {
        join_labels(ks.drop_last()) + ","@ + key_label(ks.last())
    }
}

/// Log text for a set of tiles: the first `limit` tiles in `(z, x, y)`
/// order as `z/x/y`, comma-separated, followed by `…(+n)` when `n` more
/// tiles were left out.
pub open spec fn tile_list_text(tiles: Seq<TileId>, limit: nat) -> Seq<char> {
    let sorted = tiles.map_values(|t: TileId| tile_key(t)).sort_by(key_order());
    let shown = if limit < sorted.len() { limit } else { sorted.len() };
    let text = join_labels(sorted.take(shown as int));
    if tiles.len() > limit {
        text + "\u{2026}(+"@ + decimal((tiles.len() - limit) as nat) + ")"@
    } else {
        text
    }
}

/// Formats tile ids for the sync log (see [`tile_list_text`]).
pub fn format_tile_ids(tiles: &[TileId], limit: usize) -> (r: String)
    ensures
        r@ == tile_list_text(tiles@, limit as nat),
{
    let mut keys: Vec<Key> = Vec::with_capacity(tiles.len());
    let mut i: usize = 0;
    while i < tiles.len()
        invariant
            i <= tiles@.len(),
            keys@ == tiles@.take(i as int).map_values(|t: TileId| tile_key(t)),
        decreases tiles@.len() - i,
    {
        let t = tiles[i];
        keys.push((t.z as u64, t.x as u64, t.y as u64));
        i += 1;
        assert(keys@ =~= tiles@.take(i as int).map_values(|t: TileId| tile_key(t)));
    }
    assert(tiles@.take(tiles@.len() as int) =~= tiles@);
    let sorted = sort_keys(&keys);
    proof {
        crate::sort::lemma_key_order_total();
        keys@.lemma_sort_by_ensures(key_order());
        vstd::seq_lib::to_multiset_len(keys@);
        vstd::seq_lib::to_multiset_len(sorted@);
    }
    let total = sorted.len();
    let shown = if limit < total { limit } else { total };
    let mut out: Vec<char> = Vec::new();
    let mut k: usize = 0;
    assert(sorted@.take(0) =~= Seq::<Key>::empty());
    while k < shown
        invariant
            shown <= sorted@.len(),
            k <= shown,
            out@ == join_labels(sorted@.take(k as int)),
        decreases shown - k,
    {
        let ghost before = out@;
        if k > 0 {
            push_str_chars(&mut out, ",");
        }
        let key = sorted[k];
        push_decimal(&mut out, key.0);
        push_str_chars(&mut out, "/");
        push_decimal(&mut out, key.1);
        push_str_chars(&mut out, "/");
        push_decimal(&mut out, key.2);
        proof {
            let s1 = sorted@.take(k + 1);
            assert(s1.drop_last() =~= sorted@.take(k as int));
            assert(s1.last() == key);
            if k == 0 {
                assert(out@ =~= key_label(key));
            } else {
                assert(out@ =~= before + ","@ + key_label(key));
            }
        }
        k += 1;
    }
    if total > limit {
        push_str_chars(&mut out, "\u{2026}(+");
        push_decimal(&mut out, (total - limit) as u64);
        push_str_chars(&mut out, ")");
    }
    string_of(&out)
}

/// The tiles to load this frame: wanted tiles that are not cached, in
/// wanted order, at most `limit` of them.
pub open spec fn tiles_to_load(wanted: Seq<TileId>, cached: Set<TileId>, limit: nat) -> Seq<TileId> {
    let missing = wanted.filter(|t: TileId| !cached.contains(t));
    missing.take(if limit < missing.len() { limit as int } else { missing.len() as int })
}

fn list_contains(list: &[TileId], t: TileId) -> (r: bool)
    ensures
        r == list@.contains(t),
{
    let mut i: usize = 0;
    while i < list.len()
        invariant
            i <= list@.len(),
            forall|k: int| 0 <= k < i ==> list@[k] != t,
        decreases list@.len() - i,
    {
        if list[i] == t {
            return true;
        }
        i += 1;
    }
    false
}

/// Picks the tiles to fetch (see [`tiles_to_load`]); `cached` lists the
/// tiles already held.
pub fn select_tiles_to_fetch(wanted: &[TileId], cached: &[TileId], limit: usize) -> (r: Vec<TileId>)
    ensures
        r@ == tiles_to_load(wanted@, cached@.to_set(), limit as nat),
{
    let ghost pred = |t: TileId| !cached@.to_set().contains(t);
    let mut missing: Vec<TileId> = Vec::new();
    let mut i: usize = 0;
    assert(wanted@.take(0).filter(pred) =~= Seq::<TileId>::empty()) by {
        reveal_with_fuel(Seq::filter, 1);
    }
    while i < wanted.len()
        invariant
            i <= wanted@.len(),
            pred == (|t: TileId| !cached@.to_set().contains(t)),
            missing@ == wanted@.take(i as int).filter(pred),
        decreases wanted@.len() - i,
    {
        let t = wanted[i];
        let ghost s1 = wanted@.take(i + 1int);
        assert(s1.drop_last() =~= wanted@.take(i as int));
        assert(s1.last() == t);
        assert(pred(t) == !cached@.contains(t));
        assert(s1.filter(pred) == if pred(s1.last()) {
            s1.drop_last().filter(pred).push(s1.last())
        } else {
            s1.drop_last().filter(pred)
        }) by {
            reveal_with_fuel(Seq::filter, 1);
        }
        if !list_contains(cached, t) {
            missing.push(t);
        }
        assert(missing@ =~= s1.filter(pred));
        i += 1;
    }
    assert(wanted@.take(wanted@.len() as int) =~= wanted@);
    let n = if limit < missing.len() { limit } else { missing.len() };
    let mut out: Vec<TileId> = Vec::with_capacity(n);
    let mut k: usize = 0;
    while k < n
        invariant
            n <= missing@.len(),
            k <= n,
            out@ == missing@.take(k as int),
        decreases n - k,
    {
        out.push(missing[k]);
        k += 1;
        assert(out@ =~= missing@.take(k as int));
    }
    out
}

/// The tiles to display after loading: the wanted tiles that are cached,
/// and, while that footprint is incomplete (some wanted tile is missing, or
/// nothing is wanted), the previously visible cached tiles of the current
/// zoom, so the map does not flicker while it loads.
pub open spec fn display_set(wanted: Set<TileId>, cached: Set<TileId>, visible: Set<TileId>, zoom: u8) -> Set<TileId> {
    let ready = wanted.intersect(cached);
    let complete = wanted != Set::<TileId>::empty() && wanted.subset_of(cached);
    if complete {
        ready
    } else {
        ready.union(visible.filter(|t: TileId| t.z == zoom && cached.contains(t)))
    }
}

proof fn lemma_push_contains(s: Seq<TileId>, v: TileId)
    ensures
        forall|x: TileId| #[trigger] s.push(v).contains(x) <==> s.contains(x) || x == v,
{
    assert forall|x: TileId| #[trigger] s.push(v).contains(x) <==> s.contains(x) || x == v by {
        if s.push(v).contains(x) {
            let k = choose|k: int| 0 <= k < s.push(v).len() && s.push(v)[k] == x;
            if k < s.len() {
                assert(s[k] == x);
            }
        }
        if s.contains(x) {
            let k = choose|k: int| 0 <= k < s.len() && s[k] == x;
            assert(s.push(v)[k] == x);
        }
        if x == v {
            assert(s.push(v)[s.len() as int] == x);
        }
    }
}

/// Lists the tiles of [`display_set`], each once; the arguments list the
/// wanted, cached and previously visible tiles.
pub fn display_tiles(wanted: &[TileId], cached: &[TileId], visible: &[TileId], zoom: u8) -> (r: Vec<TileId>)
    ensures
        r@.no_duplicates(),
        r@.to_set() == display_set(wanted@.to_set(), cached@.to_set(), visible@.to_set(), zoom),
{
    let mut out: Vec<TileId> = Vec::new();
    let mut all_cached = true;
    let mut i: usize = 0;
    assert(wanted@.take(0) =~= Seq::<TileId>::empty());
    while i < wanted.len()
        invariant
            i <= wanted@.len(),
            out@.no_duplicates(),
            all_cached == (forall|k: int| 0 <= k < i ==> cached@.contains(#[trigger] wanted@[k])),
            forall|t: TileId| out@.contains(t) <==> wanted@.take(i as int).contains(t) && cached@.contains(t),
        decreases wanted@.len() - i,
    {
        let t = wanted[i];
        let is_cached = list_contains(cached, t);
        let ghost before = out@;
        proof {
            lemma_push_contains(before, t);
            assert(wanted@.take(i + 1int) =~= wanted@.take(i as int).push(t));
            lemma_push_contains(wanted@.take(i as int), t);
        }
        if is_cached && !list_contains(out.as_slice(), t) {
            out.push(t);
            proof {
                assert forall|a: int, b: int| 0 <= a < b < out@.len() implies out@[a] != out@[b] by {
                    if b == before.len() {
                        assert(before.contains(out@[a]));
                    }
                }
            }
        }
        if !is_cached {
            all_cached = false;
        }
        i += 1;
    }
    assert(wanted@.take(wanted@.len() as int) =~= wanted@);
    let ghost ws = wanted@.to_set();
    let ghost cs = cached@.to_set();
    let ghost vs = visible@.to_set();
    let complete = wanted.len() > 0 && all_cached;
    proof {
        assert(ws.subset_of(cs) <==> all_cached) by {
            if all_cached {
                assert forall|t: TileId| ws.contains(t) implies cs.contains(t) by {
                    let k = choose|k: int| 0 <= k < wanted@.len() && wanted@[k] == t;
                }
            } else {
                let k = choose|k: int| 0 <= k < wanted@.len() && !cached@.contains(#[trigger] wanted@[k]);
                assert(ws.contains(wanted@[k]));
            }
        }
        if wanted@.len() > 0 {
            assert(ws.contains(wanted@[0]));
        } else {
            assert(ws =~= Set::<TileId>::empty());
        }
    }
    let ghost ready = out@;
    assert(ready.to_set() =~= ws.intersect(cs));
    if !complete {
        let mut j: usize = 0;
        assert(visible@.take(0) =~= Seq::<TileId>::empty());
        while j < visible.len()
            invariant
                j <= visible@.len(),
                out@.no_duplicates(),
                forall|t: TileId| #[trigger] out@.contains(t) <==> ready.contains(t)
                    || (visible@.take(j as int).contains(t) && t.z == zoom && cached@.contains(t)),
            decreases visible@.len() - j,
        {
            let t = visible[j];
            let ghost before = out@;
            proof {
                lemma_push_contains(before, t);
                assert(visible@.take(j + 1int) =~= visible@.take(j as int).push(t));
                lemma_push_contains(visible@.take(j as int), t);
            }
            let keep = t.z == zoom && list_contains(cached, t);
            if keep && !list_contains(out.as_slice(), t) {
                out.push(t);
                proof {
                    assert forall|a: int, b: int| 0 <= a < b < out@.len() implies out@[a] != out@[b] by {
                        if b == before.len() {
                            assert(before.contains(out@[a]));
                        }
                    }
                }
            }
            let j2 = j + 1;
            proof {
                assert forall|x: TileId| #[trigger] out@.contains(x) <==> ready.contains(x)
                    || (visible@.take(j2 as int).contains(x) && x.z == zoom && cached@.contains(x)) by {
                    assert(before.contains(x) <==> ready.contains(x)
                        || (visible@.take(j as int).contains(x) && x.z == zoom && cached@.contains(x)));
                }
            }
            j = j2;
        }
        assert(visible@.take(visible@.len() as int) =~= visible@);
        assert(out@.to_set() =~= display_set(ws, cs, vs, zoom));
    } else {
        assert(out@.to_set() =~= display_set(ws, cs, vs, zoom));
    }
    out
}

/// The fetch selection picks wanted tiles that are not cached, at most
/// `limit` of them, and all missing ones when they fit within `limit`.
pub proof fn lemma_fetch_selection(wanted: Seq<TileId>, cached: Set<TileId>, limit: nat)
    ensures
        tiles_to_load(wanted, cached, limit).len() <= limit,
        forall|i: int| 0 <= i < tiles_to_load(wanted, cached, limit).len() ==> {
            let t = #[trigger] tiles_to_load(wanted, cached, limit)[i];
            wanted.contains(t) && !cached.contains(t)
        },
        wanted.filter(|t: TileId| !cached.contains(t)).len() <= limit ==> forall|t: TileId|
            wanted.contains(t) && !cached.contains(t) ==> #[trigger] tiles_to_load(wanted, cached, limit).contains(t),
{
    broadcast use vstd::seq_lib::group_filter_ensures;
    let pred = |t: TileId| !cached.contains(t);
    let missing = wanted.filter(pred);
    let r = tiles_to_load(wanted, cached, limit);
    assert forall|i: int| 0 <= i < r.len() implies {
        let t = #[trigger] r[i];
        wanted.contains(t) && !cached.contains(t)
    } by {
        assert(r[i] == missing[i]);
        assert(missing.contains(missing[i]));
        wanted.lemma_filter_contains_rev(pred, missing[i]);
    }
    if missing.len() <= limit {
        assert(r =~= missing);
        assert forall|t: TileId| wanted.contains(t) && !cached.contains(t) implies #[trigger] r.contains(t) by {
            let k = choose|k: int| 0 <= k < wanted.len() && wanted[k] == t;
            wanted.lemma_filter_contains(pred, k);
        }
    }
}

/// The log text of a set of tiles does not depend on the order they are
/// listed in.
pub proof fn lemma_tile_list_text_ignores_order(a: Seq<TileId>, b: Seq<TileId>, limit: nat)
    requires
        a.to_multiset() == b.to_multiset(),
    ensures
        tile_list_text(a, limit) == tile_list_text(b, limit),
{
    broadcast use vstd::seq_lib::group_to_multiset_ensures;
    let f = |t: TileId| tile_key(t);
    lemma_map_keeps_multiset(a, b, f);
    let ka = a.map_values(f);
    let kb = b.map_values(f);
    lemma_key_order_total();
    ka.lemma_sort_by_ensures(key_order());
    kb.lemma_sort_by_ensures(key_order());
    vstd::seq_lib::lemma_sorted_unique(ka.sort_by(key_order()), kb.sort_by(key_order()), key_order());
    assert(a.len() == a.to_multiset().len() && b.len() == b.to_multiset().len());
}

proof fn lemma_map_keeps_multiset(a: Seq<TileId>, b: Seq<TileId>, f: spec_fn(TileId) -> Key)
    requires
        a.to_multiset() == b.to_multiset(),
    ensures
        a.map_values(f).to_multiset() == b.map_values(f).to_multiset(),
    decreases a.len(),
{
    broadcast use vstd::seq_lib::group_to_multiset_ensures;
    broadcast use vstd::multiset::group_multiset_axioms;
    vstd::seq_lib::to_multiset_len(a);
    vstd::seq_lib::to_multiset_len(b);
    if a.len() == 0 {
        assert(a.map_values(f) =~= Seq::<Key>::empty());
        assert(b.map_values(f) =~= Seq::<Key>::empty());
    } else {
        let x = a.last();
        assert(a.to_multiset().contains(x));
        assert(b.contains(x));
        let j = choose|j: int| 0 <= j < b.len() && b[j] == x;
        let a1 = a.drop_last();
        let b1 = b.remove(j);
        assert(a =~= a1.push(x));
        assert(a1.to_multiset() =~= a.to_multiset().remove(x));
        assert(b1.to_multiset() =~= b.to_multiset().remove(x));
        lemma_map_keeps_multiset(a1, b1, f);
        assert(a.map_values(f) =~= a1.map_values(f).push(f(x)));
        assert(b.map_values(f).remove(j) =~= b1.map_values(f));
        assert(b.map_values(f)[j] == f(x));
        assert(b.map_values(f).to_multiset() =~= b1.map_values(f).to_multiset().insert(f(x)));
    }
}

/// Displayed tiles are always cached tiles; every wanted tile that is
/// cached is displayed; once all wanted tiles are cached, exactly those are
/// displayed.
pub proof fn lemma_display_shows_cached_tiles(wanted: Set<TileId>, cached: Set<TileId>, visible: Set<TileId>, zoom: u8)
    ensures
        display_set(wanted, cached, visible, zoom).subset_of(cached),
        wanted.intersect(cached).subset_of(display_set(wanted, cached, visible, zoom)),
        wanted != Set::<TileId>::empty() && wanted.subset_of(cached) ==> display_set(wanted, cached, visible, zoom)
            == wanted,
{
    if wanted != Set::<TileId>::empty() && wanted.subset_of(cached) {
        assert(wanted.intersect(cached) =~= wanted);
    }
}

} // verus!
