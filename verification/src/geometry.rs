//! Mapbox Vector Tile geometry command streams.
//!
//! A geometry is a sequence of `u32` words. Each command word carries an id in
//! its low three bits (1 = MoveTo, 2 = LineTo, 7 = ClosePath) and a repeat
//! count in the remaining bits; MoveTo and LineTo are followed by `count`
//! zigzag-encoded `(dx, dy)` pairs relative to the previous cursor position.
//! Each MoveTo starts a new path, ClosePath ends the current path without
//! adding a point.
use vstd::prelude::*;

use crate::feature::Point;

verus! {

/// Zigzag decoding of a protobuf `sint32` word: even words map to
/// non-negative values, odd words to negative ones.
pub open spec fn zigzag(v: u32) -> i32 {
    if v % 2 == 0 {
        (v / 2) as i32
    } else {
        (-((v / 2) as int) - 1) as i32
    }
}

/// Ends the path under construction: a non-empty path is appended.
pub open spec fn flush_path(paths: Seq<Seq<Point>>, current: Seq<Point>) -> Seq<Seq<Point>> {
    if current.len() > 0 {
        paths.push(current)
    } else {
        paths
    }
}

/// The point reached from cursor `(x, y)` by the delta pair at `g[at]`, `g[at + 1]`.
pub open spec fn next_x(g: Seq<u32>, at: int, x: i32) -> i32 {
    x.wrapping_add(zigzag(g[at]))
}

pub open spec fn next_y(g: Seq<u32>, at: int, y: i32) -> i32 {
    y.wrapping_add(zigzag(g[at + 1]))
}

/// Interpretation of the command stream `g` from word `at` on.
///
/// `(x, y)` is the pen position, `pending` the number of coordinate pairs the
/// current command still has to read, `paths` the finished paths and
/// `current` the path under construction. The result is `None` when a
/// command id is unknown, when coordinates run out, or when no non-empty
/// path was produced.
pub open spec fn run_geometry(
    g: Seq<u32>,
    at: nat,
    x: i32,
    y: i32,
    pending: nat,
    paths: Seq<Seq<Point>>,
    current: Seq<Point>,
) -> Option<Seq<Seq<Point>>>
    decreases g.len() - at,
{
    if pending > 0 {
        if at + 1 >= g.len() {
            None
        } else {
            let nx = next_x(g, at as int, x);
            let ny = next_y(g, at as int, y);
            run_geometry(
                g,
                at + 2,
                nx,
                ny,
                (pending - 1) as nat,
                paths,
                current.push(Point { x: nx as i64, y: ny as i64 }),
            )
        }
    } else if at >= g.len() {
        let all = flush_path(paths, current);
        if all.len() == 0 {
            None
        } else {
            Some(all)
        }
    } else {
        let cmd = g[at as int];
        let id = cmd % 8;
        let count = (cmd / 8) as nat;
        if id == 1 {
            run_geometry(g, at + 1, x, y, count, flush_path(paths, current), Seq::empty())
        } else if id == 2 {
            run_geometry(g, at + 1, x, y, count, paths, current)
        } else if id == 7 {
            run_geometry(g, at + 1, x, y, 0, flush_path(paths, current), Seq::empty())
        } else {
            None
        }
    }
}

/// The paths that a whole geometry stream decodes to.
pub open spec fn geometry_paths(g: Seq<u32>) -> Option<Seq<Seq<Point>>> {
    run_geometry(g, 0, 0, 0, 0, Seq::empty(), Seq::empty())
}

/// The abstract value of decoded paths.
pub open spec fn paths_view(v: Seq<Vec<Point>>) -> Seq<Seq<Point>> {
    v.map_values(|p: Vec<Point>| p@)
}

pub open spec fn opt_paths_view(r: Option<Vec<Vec<Point>>>) -> Option<Seq<Seq<Point>>> {
    match r {
        Some(v) => Some(paths_view(v@)),
        None => None,
    }
}

proof fn lemma_run_geometry_nonempty(
    g: Seq<u32>,
    at: nat,
    x: i32,
    y: i32,
    pending: nat,
    paths: Seq<Seq<Point>>,
    current: Seq<Point>,
)
    ensures
        run_geometry(g, at, x, y, pending, paths, current) matches Some(r) ==> r.len() > 0,
    decreases g.len() - at,
{
    if pending > 0 {
        if at + 1 < g.len() {
            let nx = next_x(g, at as int, x);
            let ny = next_y(g, at as int, y);
            lemma_run_geometry_nonempty(g, at + 2, nx, ny, (pending - 1) as nat, paths,
                current.push(Point { x: nx as i64, y: ny as i64 }));
        }
    } else if at < g.len() {
        let cmd = g[at as int];
        let count = (cmd / 8) as nat;
        lemma_run_geometry_nonempty(g, at + 1, x, y, count, flush_path(paths, current), Seq::empty());
        lemma_run_geometry_nonempty(g, at + 1, x, y, count, paths, current);
        lemma_run_geometry_nonempty(g, at + 1, x, y, 0, flush_path(paths, current), Seq::empty());
    }
}

/// A geometry that decodes yields at least one path.
pub proof fn lemma_geometry_nonempty(g: Seq<u32>)
    ensures
        geometry_paths(g) matches Some(r) ==> r.len() > 0,
{
    lemma_run_geometry_nonempty(g, 0, 0, 0, 0, Seq::empty(), Seq::empty());
}

/// Zigzag decoding maps even words to the non-negative values and odd words
/// to the negative ones, and no two words to the same value.
pub proof fn lemma_zigzag_sign_and_injective(a: u32, b: u32)
    ensures
        (zigzag(a) >= 0) == (a % 2 == 0),
        zigzag(a) == zigzag(b) ==> a == b,
{
}

/// Zigzag-decodes one parameter word.
pub fn zigzag_decode(value: u32) -> (r: i32)
    ensures
        r == zigzag(value),
{
    assert(value & 1 <= 1 && value >> 1 <= 0x7fff_ffff) by (bit_vector);
    let half = (value >> 1) as i32;
    let sign: i32 = -((value & 1) as i32);
    let r = half ^ sign;
    assert(value & 1 == value % 2) by (bit_vector);
    assert(value >> 1 == value / 2) by (bit_vector);
    if value & 1 == 0 {
        assert(r == (value / 2) as i32) by (bit_vector)
            requires
                half == (value >> 1) as i32,
                sign == 0i32,
                r == half ^ sign,
                value & 1 == 0;
    } else {
        assert(r == (-((value / 2) as int) - 1) as i32) by (bit_vector)
            requires
                half == (value >> 1) as i32,
                sign == -1i32,
                r == half ^ sign,
                value & 1 == 1;
    }
    r
}

/// Reads the delta pair at `*cursor`, moves the pen and returns the new position.
/// Returns `None`, changing nothing, when fewer than two words remain.
fn read_point(geometry: &[u32], cursor: &mut usize, x: &mut i32, y: &mut i32) -> (r: Option<Point>)
    requires
        *old(cursor) <= geometry@.len(),
    ensures
        *old(cursor) + 1 >= geometry@.len() ==> r is None && *final(cursor) == *old(cursor)
            && *final(x) == *old(x) && *final(y) == *old(y),
        *old(cursor) + 1 < geometry@.len() ==> {
            &&& *final(cursor) == *old(cursor) + 2
            &&& *final(x) == next_x(geometry@, *old(cursor) as int, *old(x))
            &&& *final(y) == next_y(geometry@, *old(cursor) as int, *old(y))
            &&& r == Some(Point { x: *final(x) as i64, y: *final(y) as i64 })
        },
{
    if geometry.len() - *cursor <= 1 {
        return None;
    }
    let dx = zigzag_decode(geometry[*cursor]);
    let dy = zigzag_decode(geometry[*cursor + 1]);
    *cursor += 2;

    *x = x.wrapping_add(dx);
    *y = y.wrapping_add(dy);
    Some(Point { x: *x as i64, y: *y as i64 })
}

/// Shared decoder behind [`decode_geometry_rings`] and [`decode_geometry_linestrings`].
fn decode_geometry_paths(geometry: &[u32]) -> (res: Option<Vec<Vec<Point>>>)
    ensures
        opt_paths_view(res) == geometry_paths(geometry@),
{
    let ghost g = geometry@;
    let mut paths: Vec<Vec<Point>> = Vec::new();
    let mut current: Vec<Point> = Vec::new();
    let mut cursor: usize = 0;
    let mut x: i32 = 0;
    let mut y: i32 = 0;

    assert(paths_view(paths@) =~= Seq::<Seq<Point>>::empty());
    assert(current@ =~= Seq::<Point>::empty());

    while cursor < geometry.len()
        invariant
            g == geometry@,
            cursor <= g.len(),
            run_geometry(g, cursor as nat, x, y, 0, paths_view(paths@), current@)
                == geometry_paths(g),
        decreases g.len() - cursor,
    {
        let cmd = geometry[cursor];
        cursor += 1;

        let id = cmd & 0x7;
        let count = (cmd >> 3) as usize;
        assert(cmd & 0x7 == cmd % 8) by (bit_vector);
        assert(cmd >> 3 == cmd / 8) by (bit_vector);

        if id == 1 || id == 7 {
            if current.len() > 0 {
                let ghost before = paths_view(paths@);
                let finished = current;
                current = Vec::new();
                paths.push(finished);
                assert(paths_view(paths@) =~= before.push(finished@));
            }
            assert(current@ =~= Seq::<Point>::empty());
        }
        if id == 1 || id == 2 {
            let ghost start = cursor;
            let mut i: usize = 0;
            while i < count
                invariant
                    g == geometry@,
                    start <= cursor <= g.len(),
                    i <= count,
                    run_geometry(g, cursor as nat, x, y, (count - i) as nat, paths_view(paths@), current@)
                        == geometry_paths(g),
                decreases count - i,
            {
                let p = read_point(geometry, &mut cursor, &mut x, &mut y);
                match p {
                    Some(p) => {
                        current.push(p);
                    },
                    None => {
                        return None;
                    },
                }
                i += 1;
            }
        } else if id != 7 {
            return None;
        }
    }

    if current.len() > 0 {
        let ghost before = paths_view(paths@);
        paths.push(current);
        assert(paths_view(paths@) =~= before.push(current@));
    }

    if paths.len() == 0 {
        None
    } else {
        Some(paths)
    }
}

/// Decodes a polygon geometry into its rings: each MoveTo starts a ring and
/// ClosePath completes it without repeating the first point.
pub fn decode_geometry_rings(geometry: &[u32]) -> (res: Option<Vec<Vec<Point>>>)
    ensures
        opt_paths_view(res) == geometry_paths(geometry@),
{
    decode_geometry_paths(geometry)
}

/// Decodes a line geometry into its line strings, one per MoveTo.
pub fn decode_geometry_linestrings(geometry: &[u32]) -> (res: Option<Vec<Vec<Point>>>)
    ensures
        opt_paths_view(res) == geometry_paths(geometry@),
{
    decode_geometry_paths(geometry)
}

} // verus!
