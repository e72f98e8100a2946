//! The `vector_tile.proto` envelope (Mapbox Vector Tile 2.1): tiles hold
//! layers; layers hold a name, features, and the key and value tables that
//! feature tags point into; features hold an id, tag pairs, a geometry type
//! and a geometry command stream.
//!
//! Decoding follows the protobuf rules that a generated `prost` message
//! applies: fields may come in any order and repeat, a repeated scalar
//! singular field keeps its last value, repeated fields append, packed and
//! unpacked encodings of the repeated `uint32` fields are both accepted,
//! a known field with the wrong wire type is an error, unknown fields are
//! skipped, strings must be UTF-8, and `uint32`/`int32` fields keep the low
//! 32 bits of their varint. Only the fields the map pipeline reads are kept.
use vstd::prelude::*;
use vstd::utf8::*;

use crate::protobuf::{
    lemma_varint_len, pb_key, pb_len_delimited, pb_skip, pb_varint, read_key, read_len_delimited,
    read_varint, skip_field, window, TileDecodeError,
};

verus! {

/// A tag value. Only its string form is read by the pipeline; the numeric
/// and boolean forms are checked and skipped.
pub struct MvtValue {
    pub string_value: Option<String>,
}

/// One feature of a layer.
pub struct MvtFeature {
    pub id: Option<u64>,
    /// Alternating indices into the layer's `keys` and `values`.
    pub tags: Vec<u32>,
    /// `1` point, `2` line string, `3` polygon.
    pub geom_type: Option<i32>,
    pub geometry: Vec<u32>,
}

/// One named layer of a tile.
pub struct MvtLayer {
    pub version: u32,
    pub name: String,
    pub features: Vec<MvtFeature>,
    pub keys: Vec<String>,
    pub values: Vec<MvtValue>,
    pub extent: Option<u32>,
}

/// A decoded vector tile.
pub struct MvtTile {
    pub layers: Vec<MvtLayer>,
}

#[verifier::ext_equal]
pub struct SpecFeature {
    pub id: Option<u64>,
    pub tags: Seq<u32>,
    pub geom_type: Option<i32>,
    pub geometry: Seq<u32>,
}

#[verifier::ext_equal]
pub struct SpecLayer {
    pub version: u32,
    pub name: Seq<char>,
    pub features: Seq<SpecFeature>,
    pub keys: Seq<Seq<char>>,
    pub values: Seq<Option<Seq<char>>>,
    pub extent: Option<u32>,
}

pub open spec fn opt_str(o: Option<String>) -> Option<Seq<char>> {
    match o {
        Some(s) => Some(s@),
        None => None,
    }
}

impl View for MvtValue {
    type V = Option<Seq<char>>;

    open spec fn view(&self) -> Option<Seq<char>> {
        opt_str(self.string_value)
    }
}

impl View for MvtFeature {
    type V = SpecFeature;

    open spec fn view(&self) -> SpecFeature {
        SpecFeature {
            id: self.id,
            tags: self.tags@,
            geom_type: self.geom_type,
            geometry: self.geometry@,
        }
    }
}

pub open spec fn features_view(v: Seq<MvtFeature>) -> Seq<SpecFeature> {
    v.map_values(|f: MvtFeature| f@)
}

pub open spec fn strings_view(v: Seq<String>) -> Seq<Seq<char>> {
    v.map_values(|s: String| s@)
}

pub open spec fn values_view(v: Seq<MvtValue>) -> Seq<Option<Seq<char>>> {
    v.map_values(|x: MvtValue| x@)
}

impl View for MvtLayer {
    type V = SpecLayer;

    open spec fn view(&self) -> SpecLayer {
        SpecLayer {
            version: self.version,
            name: self.name@,
            features: features_view(self.features@),
            keys: strings_view(self.keys@),
            values: values_view(self.values@),
            extent: self.extent,
        }
    }
}

pub open spec fn layers_view(v: Seq<MvtLayer>) -> Seq<SpecLayer> {
    v.map_values(|l: MvtLayer| l@)
}

impl View for MvtTile {
    type V = Seq<SpecLayer>;

    open spec fn view(&self) -> Seq<SpecLayer> {
        layers_view(self.layers@)
    }
}

/// The payload of the length-delimited field at the front of `s`, and the
/// number of bytes the field occupies.
pub open spec fn ld_payload(s: Seq<u8>) -> Option<(Seq<u8>, nat)> {
    match pb_len_delimited(s) {
        Some((n, l)) => Some((s.subrange(n as int, (n + l) as int), n + l)),
        None => None,
    }
}

/// A UTF-8 string field at the front of `s`.
pub open spec fn string_field(s: Seq<u8>) -> Option<(Seq<char>, nat)> {
    match ld_payload(s) {
        Some((b, m)) => if valid_utf8(b) {
            Some((decode_utf8(b), m))
        } else {
            None
        },
        None => None,
    }
}

/// A varint field at the front of `s`.
pub open spec fn varint_field(s: Seq<u8>) -> Option<(u64, nat)> {
    pb_varint(s)
}

/// The elements of a packed `uint32` payload, appended to `acc`.
pub open spec fn packed_fold(acc: Seq<u32>, s: Seq<u8>) -> Option<Seq<u32>>
    decreases s.len(),
{
    if s.len() == 0 {
        Some(acc)
    } else {
        match pb_varint(s) {
            None => None,
            Some((v, n)) => {
                proof {
                    lemma_varint_len(s);
                }
                packed_fold(acc.push(v as u32), s.skip(n as int))
            },
        }
    }
}

/// A repeated `uint32` field (packed or not) at the front of `s`, appended to `acc`.
pub open spec fn repeated_u32_field(wt: u8, acc: Seq<u32>, s: Seq<u8>) -> Option<(Seq<u32>, nat)> {
    if wt == 2 {
        match ld_payload(s) {
            Some((b, m)) => match packed_fold(acc, b) {
                Some(acc2) => Some((acc2, m)),
                None => None,
            },
            None => None,
        }
    } else if wt == 0 {
        match pb_varint(s) {
            Some((v, n)) => Some((acc.push(v as u32), n)),
            None => None,
        }
    } else {
        None
    }
}

/// Skips an unknown field with `limit` levels of group nesting left, keeping `acc`.
pub open spec fn skip_keep<A>(limit: nat, wt: u8, tag: u32, acc: A, s: Seq<u8>) -> Option<(A, nat)> {
    match pb_skip(limit, wt, tag, s) {
        Some(n) => Some((acc, n)),
        None => None,
    }
}

/// One field of a `Value` message: `acc` is the string value so far.
pub open spec fn value_step(tag: u32, wt: u8, acc: Option<Seq<char>>, s: Seq<u8>) -> Option<(Option<Seq<char>>, nat)> {
    if tag == 1 {
        if wt != 2 {
            None
        } else {
            match string_field(s) {
                Some((v, m)) => Some((Some(v), m)),
                None => None,
            }
        }
    } else if tag == 2 {
        if wt == 5 && s.len() >= 4 {
            Some((acc, 4))
        } else {
            None
        }
    } else if tag == 3 {
        if wt == 1 && s.len() >= 8 {
            Some((acc, 8))
        } else {
            None
        }
    } else if 4 <= tag <= 7 {
        if wt != 0 {
            None
        } else {
            match varint_field(s) {
                Some((_, n)) => Some((acc, n)),
                None => None,
            }
        }
    } else {
        skip_keep(98, wt, tag, acc, s)
    }
}

/// The fields of a `Value` message body `s`, applied to `acc` in order.
pub open spec fn value_fold(acc: Option<Seq<char>>, s: Seq<u8>) -> Option<Option<Seq<char>>>
    decreases s.len(),
{
    if s.len() == 0 {
        Some(acc)
    } else {
        match pb_key(s) {
            None => None,
            Some((tag, wt, k)) => {
                proof {
                    lemma_varint_len(s);
                }
                let rest = s.skip(k as int);
                match value_step(tag, wt, acc, rest) {
                    None => None,
                    Some((acc2, m)) => if m > rest.len() {
                        None
                    } else {
                        value_fold(acc2, rest.skip(m as int))
                    },
                }
            },
        }
    }
}

pub open spec fn empty_feature() -> SpecFeature {
    SpecFeature { id: None, tags: Seq::empty(), geom_type: None, geometry: Seq::empty() }
}

/// One field of a `Feature` message.
pub open spec fn feature_step(tag: u32, wt: u8, acc: SpecFeature, s: Seq<u8>) -> Option<(SpecFeature, nat)> {
    if tag == 1 {
        if wt != 0 {
            None
        } else {
            match varint_field(s) {
                Some((v, n)) => Some((SpecFeature { id: Some(v), ..acc }, n)),
                None => None,
            }
        }
    } else if tag == 2 {
        match repeated_u32_field(wt, acc.tags, s) {
            Some((t, m)) => Some((SpecFeature { tags: t, ..acc }, m)),
            None => None,
        }
    } else if tag == 3 {
        if wt != 0 {
            None
        } else {
            match varint_field(s) {
                Some((v, n)) => Some((SpecFeature { geom_type: Some(v as i32), ..acc }, n)),
                None => None,
            }
        }
    } else if tag == 4 {
        match repeated_u32_field(wt, acc.geometry, s) {
            Some((g, m)) => Some((SpecFeature { geometry: g, ..acc }, m)),
            None => None,
        }
    } else {
        skip_keep(98, wt, tag, acc, s)
    }
}

/// The fields of a `Feature` message body `s`, applied to `acc` in order.
pub open spec fn feature_fold(acc: SpecFeature, s: Seq<u8>) -> Option<SpecFeature>
    decreases s.len(),
{
    if s.len() == 0 {
        Some(acc)
    } else {
        match pb_key(s) {
            None => None,
            Some((tag, wt, k)) => {
                proof {
                    lemma_varint_len(s);
                }
                let rest = s.skip(k as int);
                match feature_step(tag, wt, acc, rest) {
                    None => None,
                    Some((acc2, m)) => if m > rest.len() {
                        None
                    } else {
                        feature_fold(acc2, rest.skip(m as int))
                    },
                }
            },
        }
    }
}

/// A `Layer` before any field is read: version 1, everything else empty.
pub open spec fn empty_layer() -> SpecLayer {
    SpecLayer {
        version: 1,
        name: Seq::empty(),
        features: Seq::empty(),
        keys: Seq::empty(),
        values: Seq::empty(),
        extent: None,
    }
}

/// One field of a `Layer` message.
pub open spec fn layer_step(tag: u32, wt: u8, acc: SpecLayer, s: Seq<u8>) -> Option<(SpecLayer, nat)> {
    if tag == 15 || tag == 5 {
        if wt != 0 {
            None
        } else {
            match varint_field(s) {
                Some((v, n)) => if tag == 15 {
                    Some((SpecLayer { version: v as u32, ..acc }, n))
                } else {
                    Some((SpecLayer { extent: Some(v as u32), ..acc }, n))
                },
                None => None,
            }
        }
    } else if 1 <= tag <= 4 {
        if wt != 2 {
            None
        } else if tag == 1 || tag == 3 {
            match string_field(s) {
                Some((v, m)) => if tag == 1 {
                    Some((SpecLayer { name: v, ..acc }, m))
                } else {
                    Some((SpecLayer { keys: acc.keys.push(v), ..acc }, m))
                },
                None => None,
            }
        } else {
            match ld_payload(s) {
                Some((b, m)) => if tag == 2 {
                    match feature_fold(empty_feature(), b) {
                        Some(f) => Some((SpecLayer { features: acc.features.push(f), ..acc }, m)),
                        None => None,
                    }
                } else {
                    match value_fold(None, b) {
                        Some(v) => Some((SpecLayer { values: acc.values.push(v), ..acc }, m)),
                        None => None,
                    }
                },
                None => None,
            }
        }
    } else {
        skip_keep(99, wt, tag, acc, s)
    }
}

/// The fields of a `Layer` message body `s`, applied to `acc` in order.
pub open spec fn layer_fold(acc: SpecLayer, s: Seq<u8>) -> Option<SpecLayer>
    decreases s.len(),
{
    if s.len() == 0 {
        Some(acc)
    } else {
        match pb_key(s) {
            None => None,
            Some((tag, wt, k)) => {
                proof {
                    lemma_varint_len(s);
                }
                let rest = s.skip(k as int);
                match layer_step(tag, wt, acc, rest) {
                    None => None,
                    Some((acc2, m)) => if m > rest.len() {
                        None
                    } else {
                        layer_fold(acc2, rest.skip(m as int))
                    },
                }
            },
        }
    }
}

/// One field of a `Tile` message.
pub open spec fn tile_step(tag: u32, wt: u8, acc: Seq<SpecLayer>, s: Seq<u8>) -> Option<(Seq<SpecLayer>, nat)> {
    if tag == 3 {
        if wt != 2 {
            None
        } else {
            match ld_payload(s) {
                Some((b, m)) => match layer_fold(empty_layer(), b) {
                    Some(l) => Some((acc.push(l), m)),
                    None => None,
                },
                None => None,
            }
        }
    } else {
        skip_keep(100, wt, tag, acc, s)
    }
}

/// The fields of a `Tile` message body `s`, applied to `acc` in order.
pub open spec fn tile_fold(acc: Seq<SpecLayer>, s: Seq<u8>) -> Option<Seq<SpecLayer>>
    decreases s.len(),
{
    if s.len() == 0 {
        Some(acc)
    } else {
        match pb_key(s) {
            None => None,
            Some((tag, wt, k)) => {
                proof {
                    lemma_varint_len(s);
                }
                let rest = s.skip(k as int);
                match tile_step(tag, wt, acc, rest) {
                    None => None,
                    Some((acc2, m)) => if m > rest.len() {
                        None
                    } else {
                        tile_fold(acc2, rest.skip(m as int))
                    },
                }
            },
        }
    }
}

/// The layers that a whole encoded tile decodes to.
pub open spec fn tile_layers(bytes: Seq<u8>) -> Option<Seq<SpecLayer>> {
    tile_fold(Seq::empty(), bytes)
}

/// `String::from_utf8` of std: `Some` exactly when the bytes are well-formed
/// UTF-8, holding the characters they encode.
#[verifier::external_body]
fn string_from_utf8(bytes: Vec<u8>) -> (r: Option<String>)
    ensures
        r is Some <==> valid_utf8(bytes@),
        r matches Some(s) ==> s@ == decode_utf8(bytes@),
{
    String::from_utf8(bytes).ok()
}

/// Copies `bytes[start..stop]`.
fn copy_window(bytes: &[u8], start: usize, stop: usize) -> (r: Vec<u8>)
    requires
        start <= stop <= bytes@.len(),
    ensures
        r@ == window(bytes@, start as int, stop as int),
{
    let mut out: Vec<u8> = Vec::with_capacity(stop - start);
    let mut i = start;
    while i < stop
        invariant
            start <= i <= stop <= bytes@.len(),
            out@ == window(bytes@, start as int, i as int),
        decreases stop - i,
    {
        out.push(bytes[i]);
        i += 1;
        assert(out@ =~= window(bytes@, start as int, i as int));
    }
    out
}

proof fn lemma_window_skip(bytes: Seq<u8>, pos: int, mid: int, end: int)
    requires
        0 <= pos <= mid <= end <= bytes.len(),
    ensures
        window(bytes, pos, end).skip(mid - pos) =~= window(bytes, mid, end),
        window(bytes, pos, end).subrange(0, mid - pos) =~= window(bytes, pos, mid),
{
}

proof fn lemma_window_sub(bytes: Seq<u8>, pos: int, a: int, b: int, end: int)
    requires
        0 <= pos <= a <= b <= end <= bytes.len(),
    ensures
        window(bytes, pos, end).subrange(a - pos, b - pos) =~= window(bytes, a, b),
{
}

/// Reads the string field at `pos` (after its key); returns it and the position after it.
fn read_string(bytes: &[u8], pos: usize, end: usize) -> (r: Result<(String, usize), TileDecodeError>)
    requires
        pos <= end <= bytes@.len(),
    ensures
        match string_field(window(bytes@, pos as int, end as int)) {
            Some((v, m)) => r matches Ok((s, p)) && s@ == v && p == pos + m,
            None => r is Err,
        },
        r matches Ok((_, p)) ==> pos <= p <= end,
{
    let (a, b) = match read_len_delimited(bytes, pos, end) {
        Ok(v) => v,
        Err(e) => return Err(e),
    };
    proof {
        lemma_window_sub(bytes@, pos as int, a as int, b as int, end as int);
    }
    let payload = copy_window(bytes, a, b);
    match string_from_utf8(payload) {
        Some(s) => Ok((s, b)),
        None => Err(TileDecodeError),
    }
}

/// Appends the elements of the packed `uint32` payload `bytes[start..stop]` to `out`.
fn read_packed_u32(bytes: &[u8], start: usize, stop: usize, out: &mut Vec<u32>) -> (r: Result<(), TileDecodeError>)
    requires
        start <= stop <= bytes@.len(),
    ensures
        match packed_fold(old(out)@, window(bytes@, start as int, stop as int)) {
            Some(v) => r is Ok && final(out)@ == v,
            None => r is Err,
        },
{
    let mut pos = start;
    while pos < stop
        invariant
            start <= pos <= stop <= bytes@.len(),
            packed_fold(out@, window(bytes@, pos as int, stop as int))
                == packed_fold(old(out)@, window(bytes@, start as int, stop as int)),
        decreases stop - pos,
    {
        let ghost w = window(bytes@, pos as int, stop as int);
        let ghost before = out@;
        let (v, p) = match read_varint(bytes, pos, stop) {
            Ok(x) => x,
            Err(e) => {
                assert(packed_fold(before, w) is None);
                return Err(e);
            },
        };
        proof {
            lemma_window_skip(bytes@, pos as int, p as int, stop as int);
            assert(packed_fold(before, w) == packed_fold(before.push(v as u32), w.skip(p - pos)));
        }
        out.push(#[verifier::truncate] (v as u32));
        pos = p;
    }
    assert(window(bytes@, pos as int, stop as int).len() == 0);
    Ok(())
}

/// Reads a repeated `uint32` field (packed or unpacked) at `pos` into `out`;
/// returns the position after it.
fn read_repeated_u32(wt: u8, bytes: &[u8], pos: usize, end: usize, out: &mut Vec<u32>) -> (r: Result<usize, TileDecodeError>)
    requires
        pos <= end <= bytes@.len(),
    ensures
        match repeated_u32_field(wt, old(out)@, window(bytes@, pos as int, end as int)) {
            Some((v, m)) => pos + m <= end && r == Ok::<usize, TileDecodeError>((pos + m) as usize) && final(out)@ == v,
            None => r is Err,
        },
        r matches Ok(p) ==> pos <= p <= end,
{
    if wt == 2 {
        let (a, b) = match read_len_delimited(bytes, pos, end) {
            Ok(v) => v,
            Err(e) => return Err(e),
        };
        proof {
            lemma_window_sub(bytes@, pos as int, a as int, b as int, end as int);
        }
        match read_packed_u32(bytes, a, b, out) {
            Ok(()) => Ok(b),
            Err(e) => Err(e),
        }
    } else if wt == 0 {
        let (v, p) = match read_varint(bytes, pos, end) {
            Ok(x) => x,
            Err(e) => return Err(e),
        };
        out.push(v as u32);
        Ok(p)
    } else {
        Err(TileDecodeError)
    }
}

/// Decodes the `Value` message body `bytes[start..stop]`.
fn decode_value(bytes: &[u8], start: usize, stop: usize) -> (r: Result<MvtValue, TileDecodeError>)
    requires
        start <= stop <= bytes@.len(),
    ensures
        match value_fold(None, window(bytes@, start as int, stop as int)) {
            Some(v) => r matches Ok(x) && x@ == v,
            None => r is Err,
        },
{
    let mut string_value: Option<String> = None;
    let mut pos = start;
    while pos < stop
        invariant
            start <= pos <= stop <= bytes@.len(),
            value_fold(opt_str(string_value), window(bytes@, pos as int, stop as int))
                == value_fold(None, window(bytes@, start as int, stop as int)),
        decreases stop - pos,
    {
        let ghost w = window(bytes@, pos as int, stop as int);
        let (tag, wt, p) = match read_key(bytes, pos, stop) {
            Ok(x) => x,
            Err(e) => return Err(e),
        };
        proof {
            lemma_window_skip(bytes@, pos as int, p as int, stop as int);
        }
        let next: usize;
        if tag == 1 {
            if wt != 2 {
                return Err(TileDecodeError);
            }
            let (s, q) = match read_string(bytes, p, stop) {
                Ok(x) => x,
                Err(e) => return Err(e),
            };
            string_value = Some(s);
            next = q;
        } else if tag == 2 {
            if wt != 5 || stop - p < 4 {
                return Err(TileDecodeError);
            }
            next = p + 4;
        } else if tag == 3 {
            if wt != 1 || stop - p < 8 {
                return Err(TileDecodeError);
            }
            next = p + 8;
        } else if 4 <= tag && tag <= 7 {
            if wt != 0 {
                return Err(TileDecodeError);
            }
            let (_, q) = match read_varint(bytes, p, stop) {
                Ok(x) => x,
                Err(e) => return Err(e),
            };
            next = q;
        } else {
            next = match skip_field(98, wt, tag, bytes, p, stop) {
                Ok(q) => q,
                Err(e) => return Err(e),
            };
        }
        proof {
            lemma_window_skip(bytes@, p as int, next as int, stop as int);
        }
        pos = next;
    }
    Ok(MvtValue { string_value })
}

/// Decodes the `Feature` message body `bytes[start..stop]`.
#[verifier::spinoff_prover]
#[verifier::rlimit(40)]
fn decode_feature(bytes: &[u8], start: usize, stop: usize) -> (r: Result<MvtFeature, TileDecodeError>)
    requires
        start <= stop <= bytes@.len(),
    ensures
        match feature_fold(empty_feature(), window(bytes@, start as int, stop as int)) {
            Some(v) => r matches Ok(x) && x@ == v,
            None => r is Err,
        },
{
    let mut id: Option<u64> = None;
    let mut tags: Vec<u32> = Vec::new();
    let mut geom_type: Option<i32> = None;
    let mut geometry: Vec<u32> = Vec::new();
    let ghost init = SpecFeature { id, tags: tags@, geom_type, geometry: geometry@ };
    assert(init == empty_feature());
    let mut pos = start;
    while pos < stop
        invariant
            start <= pos <= stop <= bytes@.len(),
            feature_fold(
                SpecFeature { id, tags: tags@, geom_type, geometry: geometry@ },
                window(bytes@, pos as int, stop as int),
            ) == feature_fold(empty_feature(), window(bytes@, start as int, stop as int)),
        decreases stop - pos,
    {
        let (tag, wt, p) = match read_key(bytes, pos, stop) {
            Ok(x) => x,
            Err(e) => return Err(e),
        };
        proof {
            lemma_window_skip(bytes@, pos as int, p as int, stop as int);
        }
        let next: usize;
        if tag == 1 || tag == 3 {
            if wt != 0 {
                return Err(TileDecodeError);
            }
            let (v, q) = match read_varint(bytes, p, stop) {
                Ok(x) => x,
                Err(e) => return Err(e),
            };
            if tag == 1 {
                id = Some(v);
            } else {
                geom_type = Some(#[verifier::truncate] (v as i32));
            }
            next = q;
        } else if tag == 2 {
            next = match read_repeated_u32(wt, bytes, p, stop, &mut tags) {
                Ok(q) => q,
                Err(e) => return Err(e),
            };
        } else if tag == 4 {
            next = match read_repeated_u32(wt, bytes, p, stop, &mut geometry) {
                Ok(q) => q,
                Err(e) => return Err(e),
            };
        } else {
            next = match skip_field(98, wt, tag, bytes, p, stop) {
                Ok(q) => q,
                Err(e) => return Err(e),
            };
        }
        proof {
            lemma_window_skip(bytes@, p as int, next as int, stop as int);
        }
        pos = next;
    }
    Ok(MvtFeature { id, tags, geom_type, geometry })
}

/// Applies the `Layer` field with key `(tag, wt)` whose payload starts at `p`;
/// returns the position after it.
fn layer_field(layer: &mut MvtLayer, tag: u32, wt: u8, bytes: &[u8], p: usize, stop: usize) -> (r: Result<usize, TileDecodeError>)
    requires
        wt <= 5,
        p <= stop <= bytes@.len(),
    ensures
        match layer_step(tag, wt, old(layer)@, window(bytes@, p as int, stop as int)) {
            Some((l, m)) => p + m <= stop && r == Ok::<usize, TileDecodeError>((p + m) as usize)
                && final(layer)@ == l,
            None => r is Err,
        },
{
    if tag == 15 || tag == 5 {
        if wt != 0 {
            return Err(TileDecodeError);
        }
        let (v, q) = match read_varint(bytes, p, stop) {
            Ok(x) => x,
            Err(e) => return Err(e),
        };
        if tag == 15 {
            layer.version = #[verifier::truncate] (v as u32);
        } else {
            layer.extent = Some(#[verifier::truncate] (v as u32));
        }
        Ok(q)
    } else if 1 <= tag && tag <= 4 {
        if wt != 2 {
            return Err(TileDecodeError);
        }
        if tag == 1 || tag == 3 {
            let (text, q) = match read_string(bytes, p, stop) {
                Ok(x) => x,
                Err(e) => return Err(e),
            };
            if tag == 1 {
                layer.name = text;
            } else {
                let ghost before = layer.keys@;
                layer.keys.push(text);
                assert(strings_view(layer.keys@) =~= strings_view(before).push(text@));
            }
            Ok(q)
        } else {
            let (a, b) = match read_len_delimited(bytes, p, stop) {
                Ok(x) => x,
                Err(e) => return Err(e),
            };
            proof {
                lemma_window_sub(bytes@, p as int, a as int, b as int, stop as int);
            }
            if tag == 2 {
                let f = match decode_feature(bytes, a, b) {
                    Ok(x) => x,
                    Err(e) => return Err(e),
                };
                let ghost before = layer.features@;
                layer.features.push(f);
                assert(features_view(layer.features@) =~= features_view(before).push(f@));
            } else {
                let v = match decode_value(bytes, a, b) {
                    Ok(x) => x,
                    Err(e) => return Err(e),
                };
                let ghost before = layer.values@;
                layer.values.push(v);
                assert(values_view(layer.values@) =~= values_view(before).push(v@));
            }
            Ok(b)
        }
    } else {
        skip_field(99, wt, tag, bytes, p, stop)
    }
}

/// Decodes the `Layer` message body `bytes[start..stop]`.
fn decode_layer(bytes: &[u8], start: usize, stop: usize) -> (r: Result<MvtLayer, TileDecodeError>)
    requires
        start <= stop <= bytes@.len(),
    ensures
        match layer_fold(empty_layer(), window(bytes@, start as int, stop as int)) {
            Some(v) => r matches Ok(x) && x@ == v,
            None => r is Err,
        },
{
    let mut layer = MvtLayer {
        version: 1,
        name: String::new(),
        features: Vec::new(),
        keys: Vec::new(),
        values: Vec::new(),
        extent: None,
    };
    assert(layer@ =~= empty_layer());
    let mut pos = start;
    while pos < stop
        invariant
            start <= pos <= stop <= bytes@.len(),
            layer_fold(layer@, window(bytes@, pos as int, stop as int))
                == layer_fold(empty_layer(), window(bytes@, start as int, stop as int)),
        decreases stop - pos,
    {
        let (tag, wt, p) = match read_key(bytes, pos, stop) {
            Ok(x) => x,
            Err(e) => return Err(e),
        };
        proof {
            lemma_window_skip(bytes@, pos as int, p as int, stop as int);
        }
        let next = match layer_field(&mut layer, tag, wt, bytes, p, stop) {
            Ok(q) => q,
            Err(e) => return Err(e),
        };
        proof {
            lemma_window_skip(bytes@, p as int, next as int, stop as int);
        }
        pos = next;
    }
    Ok(layer)
}

/// Decodes an encoded vector tile.
pub fn decode_tile(bytes: &[u8]) -> (r: Result<MvtTile, TileDecodeError>)
    ensures
        match tile_layers(bytes@) {
            Some(v) => r matches Ok(t) && t@ == v,
            None => r is Err,
        },
{
    let stop = bytes.len();
    let mut layers: Vec<MvtLayer> = Vec::new();
    assert(window(bytes@, 0, stop as int) =~= bytes@);
    assert(layers_view(layers@) =~= Seq::<SpecLayer>::empty());
    let mut pos: usize = 0;
    while pos < stop
        invariant
            stop == bytes@.len(),
            pos <= stop,
            tile_fold(layers_view(layers@), window(bytes@, pos as int, stop as int))
                == tile_layers(bytes@),
        decreases stop - pos,
    {
        let (tag, wt, p) = match read_key(bytes, pos, stop) {
            Ok(x) => x,
            Err(e) => return Err(e),
        };
        let ghost acc = layers_view(layers@);
        let ghost rest = window(bytes@, p as int, stop as int);
        proof {
            lemma_window_skip(bytes@, pos as int, p as int, stop as int);
        }
        let next: usize;
        if tag == 3 {
            if wt != 2 {
                return Err(TileDecodeError);
            }
            let (a, b) = match read_len_delimited(bytes, p, stop) {
                Ok(x) => x,
                Err(e) => return Err(e),
            };
            proof {
                lemma_window_sub(bytes@, p as int, a as int, b as int, stop as int);
            }
            let layer = match decode_layer(bytes, a, b) {
                Ok(x) => x,
                Err(e) => return Err(e),
            };
            layers.push(layer);
            assert(layers_view(layers@) =~= acc.push(layer@));
            next = b;
        } else {
            next = match skip_field(100, wt, tag, bytes, p, stop) {
                Ok(q) => q,
                Err(e) => return Err(e),
            };
        }
        proof {
            lemma_window_skip(bytes@, p as int, next as int, stop as int);
            assert(tile_step(tag, wt, acc, rest) == Some((layers_view(layers@), (next - p) as nat)));
        }
        pos = next;
    }
    Ok(MvtTile { layers })
}

} // verus!
