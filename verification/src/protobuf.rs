//! Protobuf wire format: the primitives that the vector-tile decoder reads
//! with, over a byte window `bytes[pos..end]`.
//!
//! Varints, field keys and the skipping of non-group fields are read by
//! `prost`'s own `encoding` functions. Unknown groups are walked here, field
//! by field, with the nesting limit that prost's decoding context counts
//! down: 100 levels at the top of a message decode, one less inside each
//! nested message and each group. The windowing, the position arithmetic
//! and everything built on top is verified here.
use vstd::prelude::*;

verus! {

#[verifier::external_type_specification]
#[verifier::external_body]
pub struct ExDecodeError(prost::DecodeError);

/// Malformed vector-tile bytes: the protobuf envelope or one of its fields
/// could not be decoded.
#[derive(Clone, Copy, Debug, PartialEq, Eq, Structural)]
pub struct TileDecodeError;

pub open spec fn pow128(i: nat) -> nat
    decreases i,
{
    if i == 0 {
        1
    } else {
        128 * pow128((i - 1) as nat)
    }
}

/// LEB128 varint reading from byte `i` with the low `i` groups summing to `acc`.
///
/// A varint is at most ten bytes long; a ten-byte varint whose last byte is
/// above 1 would overflow 64 bits and is rejected.
pub open spec fn varint_from(s: Seq<u8>, i: nat, acc: nat) -> Option<(u64, nat)>
    decreases 10 - i,
{
    if i >= 10 || i >= s.len() {
        None
    } else {
        let b = s[i as int];
        let acc2 = acc + (b % 128) as nat * pow128(i);
        if b < 128 {
            if i == 9 && b >= 2 {
                None
            } else {
                Some((acc2 as u64, i + 1))
            }
        } else {
            varint_from(s, i + 1, acc2)
        }
    }
}

proof fn lemma_varint_from_len(s: Seq<u8>, i: nat, acc: nat)
    ensures
        varint_from(s, i, acc) matches Some((_, n)) ==> i < n <= s.len() && n <= 10,
    decreases 10 - i,
{
    if i < 10 && i < s.len() && s[i as int] >= 128 {
        lemma_varint_from_len(s, i + 1, acc + (s[i as int] % 128) as nat * pow128(i));
    }
}

/// A varint occupies between one and ten bytes of the input it is read from.
pub proof fn lemma_varint_len(s: Seq<u8>)
    ensures
        pb_varint(s) matches Some((_, n)) ==> 1 <= n <= s.len() && n <= 10,
{
    lemma_varint_from_len(s, 0, 0);
}

/// The varint at the front of `s`: its value and its length in bytes.
pub open spec fn pb_varint(s: Seq<u8>) -> Option<(u64, nat)> {
    varint_from(s, 0, 0)
}

/// The field key at the front of `s`: tag, wire type and length of the key.
/// Keys above `u32::MAX`, wire types 6 and 7 and tag 0 are rejected.
pub open spec fn pb_key(s: Seq<u8>) -> Option<(u32, u8, nat)> {
    match pb_varint(s) {
        None => None,
        Some((k, n)) => if k > u32::MAX {
            None
        } else if k % 8 > 5 {
            None
        } else if k / 8 == 0 {
            None
        } else {
            Some(((k / 8) as u32, (k % 8) as u8, n))
        },
    }
}

/// A length-delimited payload at the front of `s`: the length of its length
/// prefix `n` and its length `l`, so that the payload is `s[n..n + l]`.
pub open spec fn pb_len_delimited(s: Seq<u8>) -> Option<(nat, nat)> {
    match pb_varint(s) {
        None => None,
        Some((l, n)) => if l > s.len() - n {
            None
        } else {
            Some((n, l as nat))
        },
    }
}

/// How many bytes a non-group field payload of wire type `wt` occupies at
/// the front of `s`: a varint, a 64-bit word, a length-delimited payload or a
/// 32-bit word. An end-group key alone, and wire types above 5, are errors.
pub open spec fn pb_skip_flat(wt: u8, s: Seq<u8>) -> Option<nat> {
    if wt == 0 {
        match pb_varint(s) {
            Some((_, n)) => Some(n),
            None => None,
        }
    } else if wt == 1 {
        if s.len() >= 8 {
            Some(8)
        } else {
            None
        }
    } else if wt == 2 {
        match pb_len_delimited(s) {
            Some((n, l)) => Some(n + l),
            None => None,
        }
    } else if wt == 5 {
        if s.len() >= 4 {
            Some(4)
        } else {
            None
        }
    } else {
        None
    }
}

/// How many bytes a field payload of wire type `wt` with tag `tag` occupies
/// at the front of `s` when skipped with `limit` levels of nesting left, as
/// `prost::encoding::skip_field` skips it: no level left is an error; a group
/// (wire type 3) is the fields up to the end-group key of the same tag, each
/// skipped with one level less.
pub open spec fn pb_skip(limit: nat, wt: u8, tag: u32, s: Seq<u8>) -> Option<nat>
    decreases s.len(), 1nat,
{
    if limit == 0 {
        None
    } else if wt == 3 {
        pb_group_rest(limit, tag, s)
    } else {
        pb_skip_flat(wt, s)
    }
}

/// The rest of a group with tag `tag` at the front of `s`: its remaining
/// fields and its end key, skipped with `limit - 1` levels each.
pub open spec fn pb_group_rest(limit: nat, tag: u32, s: Seq<u8>) -> Option<nat>
    decreases s.len(), 0nat,
{
    match pb_key(s) {
        None => None,
        Some((t, w, k)) => {
            proof {
                lemma_varint_len(s);
            }
            if w == 4 {
                if t == tag {
                    Some(k)
                } else {
                    None
                }
            } else if limit == 0 {
                None
            } else {
                match pb_skip((limit - 1) as nat, w, t, s.skip(k as int)) {
                    None => None,
                    Some(m) => if m > s.len() - k {
                        None
                    } else {
                        match pb_group_rest(limit, tag, s.skip((k + m) as int)) {
                            None => None,
                            Some(r) => Some(k + m + r),
                        }
                    },
                }
            }
        },
    }
}

pub open spec fn window(bytes: Seq<u8>, pos: int, end: int) -> Seq<u8> {
    bytes.subrange(pos, end)
}

/// `prost::encoding::decode_varint` on `bytes[pos..end]`. Claims that it
/// reads exactly the LEB128 varint described by [`pb_varint`] and returns
/// what is left of the window, and fails where that spec has no value.
#[verifier::external_body]
fn prost_decode_varint(bytes: &[u8], pos: usize, end: usize) -> (r: Result<(u64, usize), prost::DecodeError>)
    requires
        pos <= end <= bytes@.len(),
    ensures
        match pb_varint(window(bytes@, pos as int, end as int)) {
            Some((v, n)) => r matches Ok((v2, rest)) && v2 == v && rest == end - pos - n,
            None => r is Err,
        },
{
    let mut buf: &[u8] = &bytes[pos..end];
    let value = prost::encoding::decode_varint(&mut buf)?;
    Ok((value, buf.len()))
}

/// `prost::encoding::decode_key` on `bytes[pos..end]`, with the wire type
/// given by its protobuf number. Claims the behaviour of [`pb_key`].
#[verifier::external_body]
fn prost_decode_key(bytes: &[u8], pos: usize, end: usize) -> (r: Result<(u32, u8, usize), prost::DecodeError>)
    requires
        pos <= end <= bytes@.len(),
    ensures
        match pb_key(window(bytes@, pos as int, end as int)) {
            Some((tag, wt, n)) => r matches Ok((tag2, wt2, rest)) && tag2 == tag && wt2 == wt
                && rest == end - pos - n,
            None => r is Err,
        },
{
    let mut buf: &[u8] = &bytes[pos..end];
    let (tag, wire_type) = prost::encoding::decode_key(&mut buf)?;
    let wt: u8 = match wire_type {
        prost::encoding::WireType::Varint => 0,
        prost::encoding::WireType::SixtyFourBit => 1,
        prost::encoding::WireType::LengthDelimited => 2,
        prost::encoding::WireType::StartGroup => 3,
        prost::encoding::WireType::EndGroup => 4,
        prost::encoding::WireType::ThirtyTwoBit => 5,
    };
    Ok((tag, wt, buf.len()))
}

/// `prost::encoding::skip_field` on `bytes[pos..end]` for a field that is not
/// a group, with a fresh `DecodeContext` (whose nesting limit is not reached
/// by a non-group field). Claims the behaviour of [`pb_skip_flat`]: varints,
/// fixed 32/64-bit words and length-delimited payloads are skipped whole and
/// never past the window, and an end-group key alone is an error.
#[verifier::external_body]
fn prost_skip_field(wt: u8, tag: u32, bytes: &[u8], pos: usize, end: usize) -> (r: Result<usize, prost::DecodeError>)
    requires
        wt <= 5,
        wt != 3,
        pos <= end <= bytes@.len(),
    ensures
        match pb_skip_flat(wt, window(bytes@, pos as int, end as int)) {
            Some(n) => n <= end - pos && r == Ok::<usize, prost::DecodeError>((end - pos - n) as usize),
            None => r is Err,
        },
{
    let wire_type = match wt {
        0 => prost::encoding::WireType::Varint,
        1 => prost::encoding::WireType::SixtyFourBit,
        2 => prost::encoding::WireType::LengthDelimited,
        4 => prost::encoding::WireType::EndGroup,
        _ => prost::encoding::WireType::ThirtyTwoBit,
    };
    let mut buf: &[u8] = &bytes[pos..end];
    prost::encoding::skip_field(wire_type, tag, &mut buf, prost::encoding::DecodeContext::default())?;
    Ok(buf.len())
}

/// Reads the varint at `pos`; returns its value and the position after it.
pub fn read_varint(bytes: &[u8], pos: usize, end: usize) -> (r: Result<(u64, usize), TileDecodeError>)
    requires
        pos <= end <= bytes@.len(),
    ensures
        match pb_varint(window(bytes@, pos as int, end as int)) {
            Some((v, n)) => pos + n <= end && r == Ok::<(u64, usize), TileDecodeError>((v, (pos + n) as usize)),
            None => r is Err,
        },
        r matches Ok((_, p)) ==> pos < p <= end,
{
    proof {
        lemma_varint_len(window(bytes@, pos as int, end as int));
    }
    match prost_decode_varint(bytes, pos, end) {
        Ok((v, rest)) => Ok((v, end - rest)),
        Err(_) => Err(TileDecodeError),
    }
}

/// Reads the field key at `pos`; returns tag, wire type and the position after it.
pub fn read_key(bytes: &[u8], pos: usize, end: usize) -> (r: Result<(u32, u8, usize), TileDecodeError>)
    requires
        pos <= end <= bytes@.len(),
    ensures
        match pb_key(window(bytes@, pos as int, end as int)) {
            Some((tag, wt, n)) => pos + n <= end && r == Ok::<(u32, u8, usize), TileDecodeError>((tag, wt, (pos + n) as usize)),
            None => r is Err,
        },
        r matches Ok((_, _, p)) ==> pos < p <= end,
{
    proof {
        lemma_varint_len(window(bytes@, pos as int, end as int));
    }
    match prost_decode_key(bytes, pos, end) {
        Ok((tag, wt, rest)) => Ok((tag, wt, end - rest)),
        Err(_) => Err(TileDecodeError),
    }
}

/// Reads a length-delimited payload at `pos`; returns the window
/// `(start, stop)` that holds the payload. `stop` is where the next field begins.
pub fn read_len_delimited(bytes: &[u8], pos: usize, end: usize) -> (r: Result<(usize, usize), TileDecodeError>)
    requires
        pos <= end <= bytes@.len(),
    ensures
        match pb_len_delimited(window(bytes@, pos as int, end as int)) {
            Some((n, l)) => pos + n + l <= end && r == Ok::<(usize, usize), TileDecodeError>(((pos + n) as usize, (pos + n + l) as usize)),
            None => r is Err,
        },
{
    let (len, start) = match read_varint(bytes, pos, end) {
        Ok(v) => v,
        Err(e) => return Err(e),
    };
    let ghost w = window(bytes@, pos as int, end as int);
    if len > (end - start) as u64 {
        return Err(TileDecodeError);
    }
    proof {
        lemma_varint_len(w);
    }
    Ok((start, start + len as usize))
}

proof fn lemma_window_skip(bytes: Seq<u8>, pos: int, q: int, end: int)
    requires
        0 <= pos <= q <= end <= bytes.len(),
    ensures
        window(bytes, pos, end).skip(q - pos) == window(bytes, q, end),
{
    assert(window(bytes, pos, end).skip(q - pos) =~= window(bytes, q, end));
}

/// Skips a field payload of wire type `wt` at `pos` with `limit` levels of
/// group nesting left (see [`pb_skip`]); returns the position after it.
pub fn skip_field(limit: u32, wt: u8, tag: u32, bytes: &[u8], pos: usize, end: usize) -> (r: Result<usize, TileDecodeError>)
    requires
        wt <= 5,
        pos <= end <= bytes@.len(),
    ensures
        match pb_skip(limit as nat, wt, tag, window(bytes@, pos as int, end as int)) {
            Some(n) => n <= end - pos && r == Ok::<usize, TileDecodeError>((pos + n) as usize),
            None => r is Err,
        },
    decreases end - pos, 1nat,
{
    if limit == 0 {
        return Err(TileDecodeError);
    }
    if wt == 3 {
        return skip_group(limit, tag, bytes, pos, end);
    }
    match prost_skip_field(wt, tag, bytes, pos, end) {
        Ok(rest) => Ok(end - rest),
        Err(_) => Err(TileDecodeError),
    }
}

/// Skips the rest of a group with tag `tag` at `pos` (see [`pb_group_rest`]);
/// returns the position after its end key.
fn skip_group(limit: u32, tag: u32, bytes: &[u8], pos: usize, end: usize) -> (r: Result<usize, TileDecodeError>)
    requires
        limit >= 1,
        pos <= end <= bytes@.len(),
    ensures
        match pb_group_rest(limit as nat, tag, window(bytes@, pos as int, end as int)) {
            Some(n) => n <= end - pos && r == Ok::<usize, TileDecodeError>((pos + n) as usize),
            None => r is Err,
        },
    decreases end - pos, 0nat,
{
    let ghost whole = pb_group_rest(limit as nat, tag, window(bytes@, pos as int, end as int));
    let mut p: usize = pos;
    loop
        invariant
            limit >= 1,
            pos <= p <= end <= bytes@.len(),
            whole == pb_group_rest(limit as nat, tag, window(bytes@, pos as int, end as int)),
            whole == match pb_group_rest(limit as nat, tag, window(bytes@, p as int, end as int)) {
                Some(n) => Some((p - pos + n) as nat),
                None => None::<nat>,
            },
        decreases end - p,
    {
        let ghost w = window(bytes@, p as int, end as int);
        proof {
            lemma_varint_len(w);
            lemma_group_rest_len(limit as nat, tag, w);
        }
        let (t, wt, q) = match read_key(bytes, p, end) {
            Ok(k) => k,
            Err(e) => return Err(e),
        };
        if wt == 4 {
            if t == tag {
                return Ok(q);
            }
            return Err(TileDecodeError);
        }
        proof {
            lemma_window_skip(bytes@, p as int, q as int, end as int);
        }
        let after = match skip_field(limit - 1, wt, t, bytes, q, end) {
            Ok(a) => a,
            Err(e) => return Err(e),
        };
        proof {
            lemma_window_skip(bytes@, p as int, after as int, end as int);
            lemma_group_rest_len(limit as nat, tag, window(bytes@, after as int, end as int));
        }
        p = after;
    }
}

proof fn lemma_group_rest_len(limit: nat, tag: u32, s: Seq<u8>)
    ensures
        pb_group_rest(limit, tag, s) matches Some(n) ==> n <= s.len(),
    decreases s.len(),
{
    lemma_varint_len(s);
    if let Some((t, w, k)) = pb_key(s) {
        if w != 4 && limit > 0 {
            if let Some(m) = pb_skip((limit - 1) as nat, w, t, s.skip(k as int)) {
                if m <= s.len() - k {
                    lemma_group_rest_len(limit, tag, s.skip((k + m) as int));
                }
            }
        }
    }
}

} // verus!
