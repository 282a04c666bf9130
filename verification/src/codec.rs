//! The payload codec for geometries, nodes and roots.
//!
//! Every value is laid down little-endian and self-delimiting: integers
//! as eight bytes, counts and byte payloads behind a varint, a node as
//! exactly `M_NODE` entry slots with absent padding.  Decoding is the
//! exact inverse on encoded bytes and consumes the whole payload.

use crate::bbox::{BBox, Pt};
use crate::common::{spec_id, Id};
use crate::gis::{Geom, Linestring, Linestrings, Points, Polygon, Polygons};
use crate::node::{Entry, Node, Root, M_NODE};
use crate::varint::{
    decode_varint, encode_varint, lemma_varint_len, lemma_varint_roundtrip, spec_varint,
    spec_varint_parse,
};
use vstd::bytes::{
    spec_u64_from_le_bytes, spec_u64_to_le_bytes, u64_from_le_bytes, u64_to_le_bytes,
};
use vstd::prelude::*;
use vstd::slice::{slice_subrange, slice_to_vec};

verus! {

// ---------------------------------------------------------------- scalars

/// The encoding of an unsigned 64-bit value.
pub open spec fn spec_enc_u64(v: u64) -> Seq<u8> {
    spec_u64_to_le_bytes(v)
}

/// Parse an unsigned 64-bit value.
pub open spec fn spec_dec_u64(b: Seq<u8>, pos: int) -> Option<(u64, int)> {
    if 0 <= pos && pos + 8 <= b.len() {
        Some((spec_u64_from_le_bytes(b.subrange(pos, pos + 8)), pos + 8))
    } else {
        None
    }
}

/// The encoding of a signed 64-bit value: its two's complement bits.
pub open spec fn spec_enc_i64(v: i64) -> Seq<u8> {
    spec_u64_to_le_bytes(v as u64)
}

/// Parse a signed 64-bit value.
pub open spec fn spec_dec_i64(b: Seq<u8>, pos: int) -> Option<(i64, int)> {
    match spec_dec_u64(b, pos) {
        Some((v, end)) => Some((v as i64, end)),
        None => None,
    }
}

/// An unsigned value parses back from wherever its encoding was laid.
pub proof fn lemma_u64_roundtrip(b: Seq<u8>, pos: int, v: u64)
    requires
        0 <= pos,
        pos + 8 <= b.len(),
        b.subrange(pos, pos + 8) == spec_enc_u64(v),
    ensures
        spec_dec_u64(b, pos) == Some((v, pos + 8)),
{
    vstd::bytes::lemma_auto_spec_u64_to_from_le_bytes();
}

/// A signed value parses back from wherever its encoding was laid.
pub proof fn lemma_i64_roundtrip(b: Seq<u8>, pos: int, v: i64)
    requires
        0 <= pos,
        pos + 8 <= b.len(),
        b.subrange(pos, pos + 8) == spec_enc_i64(v),
    ensures
        spec_dec_i64(b, pos) == Some((v, pos + 8)),
{
    lemma_u64_roundtrip(b, pos, v as u64);
    assert(((v as u64) as i64) == v) by (bit_vector);
}

/// Append the encoding of an unsigned value.
fn enc_u64(buf: &mut Vec<u8>, v: u64)
    ensures
        final(buf)@ == old(buf)@ + spec_enc_u64(v),
{
    proof {
        vstd::bytes::lemma_auto_spec_u64_to_from_le_bytes();
    }
    let mut tail = u64_to_le_bytes(v);
    buf.append(&mut tail);
}

/// Append the encoding of a signed value.
fn enc_i64(buf: &mut Vec<u8>, v: i64)
    ensures
        final(buf)@ == old(buf)@ + spec_enc_i64(v),
{
    enc_u64(buf, v as u64);
}

/// Parse an unsigned value from `b` at `pos`.
fn dec_u64(b: &Vec<u8>, pos: usize) -> (r: Option<(u64, usize)>)
    ensures
        match r {
            Some((v, end)) => spec_dec_u64(b@, pos as int) == Some((v, end as int)),
            None => spec_dec_u64(b@, pos as int) is None,
        },
{
    if b.len() < 8 || pos > b.len() - 8 {
        return None;
    }
    let v = u64_from_le_bytes(slice_subrange(b.as_slice(), pos, pos + 8));
    Some((v, pos + 8))
}

/// Parse a signed value from `b` at `pos`.
fn dec_i64(b: &Vec<u8>, pos: usize) -> (r: Option<(i64, usize)>)
    ensures
        match r {
            Some((v, end)) => spec_dec_i64(b@, pos as int) == Some((v, end as int)),
            None => spec_dec_i64(b@, pos as int) is None,
        },
{
    match dec_u64(b, pos) {
        Some((v, end)) => Some((v as i64, end)),
        None => None,
    }
}

// ----------------------------------------------------------------- points

/// The encoding of a point: X then Y.
pub open spec fn spec_enc_pt(p: Pt) -> Seq<u8> {
    spec_enc_i64(p.x) + spec_enc_i64(p.y)
}

/// Parse a point.
pub open spec fn spec_dec_pt(b: Seq<u8>, pos: int) -> Option<(Pt, int)> {
    match spec_dec_i64(b, pos) {
        Some((x, p1)) => match spec_dec_i64(b, p1) {
            Some((y, p2)) => Some((Pt { x, y }, p2)),
            None => None,
        },
        None => None,
    }
}

/// A point parses back from wherever its encoding was laid.
pub proof fn lemma_pt_roundtrip(b: Seq<u8>, pos: int, p: Pt)
    requires
        0 <= pos,
        pos + 16 <= b.len(),
        b.subrange(pos, pos + 16) == spec_enc_pt(p),
    ensures
        spec_dec_pt(b, pos) == Some((p, pos + 16)),
{
    vstd::bytes::lemma_auto_spec_u64_to_from_le_bytes();
    let enc = spec_enc_pt(p);
    assert(b.subrange(pos, pos + 8) =~= enc.subrange(0, 8));
    assert(enc.subrange(0, 8) =~= spec_enc_i64(p.x));
    assert(b.subrange(pos + 8, pos + 16) =~= enc.subrange(8, 16));
    assert(enc.subrange(8, 16) =~= spec_enc_i64(p.y));
    lemma_i64_roundtrip(b, pos, p.x);
    lemma_i64_roundtrip(b, pos + 8, p.y);
}

/// The encoding of a list of points, first to last.
pub open spec fn spec_enc_pt_list(s: Seq<Pt>) -> Seq<u8>
    decreases s.len(),
{
    if s.len() == 0 {
        Seq::<u8>::empty()
    } else {
        spec_enc_pt(s[0]) + spec_enc_pt_list(s.drop_first())
    }
}

/// Each point encoding is 16 bytes.
pub proof fn lemma_enc_pt_list_len(s: Seq<Pt>)
    ensures
        spec_enc_pt_list(s).len() == 16 * s.len(),
    decreases s.len(),
{
    vstd::bytes::lemma_auto_spec_u64_to_from_le_bytes();
    if s.len() > 0 {
        lemma_enc_pt_list_len(s.drop_first());
    }
}

/// Appending one point extends the list encoding at its end.
pub proof fn lemma_enc_pt_list_snoc(s: Seq<Pt>, p: Pt)
    ensures
        spec_enc_pt_list(s.push(p)) == spec_enc_pt_list(s) + spec_enc_pt(p),
    decreases s.len(),
{
    if s.len() == 0 {
        let single = s.push(p);
        assert(single.len() == 1);
        assert(single[0] == p);
        assert(single.drop_first() =~= Seq::<Pt>::empty());
        assert(spec_enc_pt_list(single) == spec_enc_pt(p) + spec_enc_pt_list(single.drop_first()));
        assert(spec_enc_pt_list(single.drop_first()) == Seq::<u8>::empty());
        assert(spec_enc_pt(p) + Seq::<u8>::empty() =~= spec_enc_pt(p));
        assert(Seq::<u8>::empty() + spec_enc_pt(p) =~= spec_enc_pt(p));
    } else {
        assert(s.push(p).drop_first() =~= s.drop_first().push(p));
        lemma_enc_pt_list_snoc(s.drop_first(), p);
        assert(s.push(p)[0] == s[0]);
        assert(spec_enc_pt_list(s.push(p)) == spec_enc_pt(s[0]) + (spec_enc_pt_list(s.drop_first())
            + spec_enc_pt(p)));
        assert(spec_enc_pt(s[0]) + (spec_enc_pt_list(s.drop_first()) + spec_enc_pt(p)) =~= (
        spec_enc_pt(s[0]) + spec_enc_pt_list(s.drop_first())) + spec_enc_pt(p));
    }
}

/// Parse `n` points.
pub open spec fn spec_dec_pt_list(b: Seq<u8>, pos: int, n: nat) -> Option<(Seq<Pt>, int)>
    decreases n,
{
    if n == 0 {
        Some((Seq::<Pt>::empty(), pos))
    } else {
        match spec_dec_pt(b, pos) {
            Some((p, p1)) => match spec_dec_pt_list(b, p1, (n - 1) as nat) {
                Some((s, p2)) => Some((seq![p] + s, p2)),
                None => None,
            },
            None => None,
        }
    }
}

/// A list of points parses back from wherever its encoding was laid.
pub proof fn lemma_pt_list_roundtrip(b: Seq<u8>, pos: int, s: Seq<Pt>)
    requires
        0 <= pos,
        pos + spec_enc_pt_list(s).len() <= b.len(),
        b.subrange(pos, pos + spec_enc_pt_list(s).len() as int) == spec_enc_pt_list(s),
    ensures
        spec_dec_pt_list(b, pos, s.len()) == Some((s, pos + spec_enc_pt_list(s).len() as int)),
    decreases s.len(),
{
    lemma_enc_pt_list_len(s);
    if s.len() > 0 {
        let enc = spec_enc_pt_list(s);
        let rest = spec_enc_pt_list(s.drop_first());
        lemma_enc_pt_list_len(s.drop_first());
        assert(b.subrange(pos, pos + 16) =~= enc.subrange(0, 16));
        assert(enc.subrange(0, 16) =~= spec_enc_pt(s[0]));
        lemma_pt_roundtrip(b, pos, s[0]);
        assert(b.subrange(pos + 16, pos + 16 + rest.len() as int) =~= enc.subrange(
            16,
            enc.len() as int,
        ));
        assert(enc.subrange(16, enc.len() as int) =~= rest);
        lemma_pt_list_roundtrip(b, pos + 16, s.drop_first());
        assert(seq![s[0]] + s.drop_first() =~= s);
    }
}

/// Append the encoding of the points of a vector.
fn enc_pt_list(buf: &mut Vec<u8>, pts: &Vec<Pt>)
    ensures
        final(buf)@ == old(buf)@ + spec_enc_pt_list(pts@),
{
    let mut i: usize = 0;
    while i < pts.len()
        invariant
            0 <= i <= pts@.len(),
            buf@ == old(buf)@ + spec_enc_pt_list(pts@.take(i as int)),
        decreases pts@.len() - i,
    {
        let p = pts[i];
        enc_i64(buf, p.x);
        enc_i64(buf, p.y);
        proof {
            assert(pts@.take(i as int).push(pts@[i as int]) =~= pts@.take(i + 1));
            lemma_enc_pt_list_snoc(pts@.take(i as int), pts@[i as int]);
            assert(buf@ =~= old(buf)@ + spec_enc_pt_list(pts@.take(i + 1)));
        }
        i = i + 1;
    }
    proof {
        assert(pts@.take(pts@.len() as int) =~= pts@);
    }
}

/// Parse `n` points from `b` at `pos`.
fn dec_pt_list(b: &Vec<u8>, pos: usize, n: u64) -> (r: Option<(Vec<Pt>, usize)>)
    ensures
        match r {
            Some((s, end)) => spec_dec_pt_list(b@, pos as int, n as nat) == Some(
                (s@, end as int),
            ),
            None => spec_dec_pt_list(b@, pos as int, n as nat) is None,
        },
{
    let mut s: Vec<Pt> = Vec::new();
    let mut p: usize = pos;
    let mut i: u64 = 0;
    proof {
        if let Some((r0, e0)) = spec_dec_pt_list(b@, pos as int, n as nat) {
            assert(Seq::<Pt>::empty() + r0 =~= r0);
        }
    }
    while i < n
        invariant
            0 <= i <= n,
            spec_dec_pt_list(b@, pos as int, n as nat) == (match spec_dec_pt_list(
                b@,
                p as int,
                (n - i) as nat,
            ) {
                Some((rest, end)) => Some::<(Seq<Pt>, int)>((s@ + rest, end)),
                None => None::<(Seq<Pt>, int)>,
            }),
        decreases n - i,
    {
        let x = match dec_i64(b, p) {
            Some(v) => v,
            None => {
                return None;
            },
        };
        let y = match dec_i64(b, x.1) {
            Some(v) => v,
            None => {
                return None;
            },
        };
        let pt = Pt { x: x.0, y: y.0 };
        proof {
            let m = (n - i) as nat;
            assert(spec_dec_pt(b@, p as int) == Some((pt, y.1 as int)));
            if let Some((s2, e2)) = spec_dec_pt_list(b@, y.1 as int, (m - 1) as nat) {
                assert(s@ + (seq![pt] + s2) =~= s@.push(pt) + s2);
            }
        }
        s.push(pt);
        p = y.1;
        i = i + 1;
    }
    proof {
        assert(s@ + Seq::<Pt>::empty() =~= s@);
    }
    Some((s, p))
}

// ------------------------------------------------------------ byte blobs

/// The encoding of a byte payload: its length behind a varint, then the
/// bytes themselves.
pub open spec fn spec_enc_bytes(s: Seq<u8>) -> Seq<u8> {
    spec_varint(s.len() as u64) + s
}

/// Parse a byte payload.
pub open spec fn spec_dec_bytes(b: Seq<u8>, pos: int) -> Option<(Seq<u8>, int)> {
    match spec_varint_parse(b, pos) {
        Some((n, p1)) => if p1 + n <= b.len() {
            Some((b.subrange(p1, p1 + n), p1 + n))
        } else {
            None
        },
        None => None,
    }
}

/// A byte payload parses back from wherever its encoding was laid.
pub proof fn lemma_bytes_roundtrip(b: Seq<u8>, pos: int, s: Seq<u8>)
    requires
        0 <= pos,
        s.len() <= u64::MAX,
        pos + spec_enc_bytes(s).len() <= b.len(),
        b.subrange(pos, pos + spec_enc_bytes(s).len() as int) == spec_enc_bytes(s),
    ensures
        spec_dec_bytes(b, pos) == Some((s, pos + spec_enc_bytes(s).len() as int)),
{
    let n = s.len() as u64;
    let vi = spec_varint(n);
    let enc = spec_enc_bytes(s);
    lemma_varint_len(n);
    assert(b.subrange(pos, pos + vi.len() as int) =~= enc.subrange(0, vi.len() as int));
    assert(enc.subrange(0, vi.len() as int) =~= vi);
    lemma_varint_roundtrip(b, pos, n);
    let p1 = pos + vi.len() as int;
    assert(b.subrange(p1, p1 + s.len() as int) =~= enc.subrange(vi.len() as int, enc.len() as int));
    assert(enc.subrange(vi.len() as int, enc.len() as int) =~= s);
}

/// Append the encoding of a byte payload.
fn enc_bytes(buf: &mut Vec<u8>, s: &Vec<u8>)
    ensures
        final(buf)@ == old(buf)@ + spec_enc_bytes(s@),
{
    encode_varint(buf, s.len() as u64);
    buf.extend_from_slice(s.as_slice());
    proof {
        assert(buf@ =~= old(buf)@ + spec_enc_bytes(s@));
    }
}

/// Parse a byte payload from `b` at `pos`.
fn dec_bytes(b: &Vec<u8>, pos: usize) -> (r: Option<(Vec<u8>, usize)>)
    ensures
        match r {
            Some((s, end)) => spec_dec_bytes(b@, pos as int) == Some((s@, end as int)),
            None => spec_dec_bytes(b@, pos as int) is None,
        },
{
    match decode_varint(b, pos) {
        Some((n, p1)) => {
            if n <= (b.len() - p1) as u64 {
                let nn = n as usize;
                let s = slice_to_vec(slice_subrange(b.as_slice(), p1, p1 + nn));
                Some((s, p1 + nn))
            } else {
                None
            }
        },
        None => None,
    }
}

// --------------------------------------------------------- counted points

/// The encoding of a counted point list.
pub open spec fn spec_enc_pts(s: Seq<Pt>) -> Seq<u8> {
    spec_varint(s.len() as u64) + spec_enc_pt_list(s)
}

/// Parse a counted point list.
pub open spec fn spec_dec_pts(b: Seq<u8>, pos: int) -> Option<(Seq<Pt>, int)> {
    match spec_varint_parse(b, pos) {
        Some((n, p1)) => spec_dec_pt_list(b, p1, n as nat),
        None => None,
    }
}

/// A counted point list parses back from wherever its encoding was laid.
pub proof fn lemma_pts_roundtrip(b: Seq<u8>, pos: int, s: Seq<Pt>)
    requires
        0 <= pos,
        s.len() <= u64::MAX,
        pos + spec_enc_pts(s).len() <= b.len(),
        b.subrange(pos, pos + spec_enc_pts(s).len() as int) == spec_enc_pts(s),
    ensures
        spec_dec_pts(b, pos) == Some((s, pos + spec_enc_pts(s).len() as int)),
{
    let n = s.len() as u64;
    let vi = spec_varint(n);
    let enc = spec_enc_pts(s);
    lemma_varint_len(n);
    lemma_enc_pt_list_len(s);
    assert(b.subrange(pos, pos + vi.len() as int) =~= enc.subrange(0, vi.len() as int));
    assert(enc.subrange(0, vi.len() as int) =~= vi);
    lemma_varint_roundtrip(b, pos, n);
    let p1 = pos + vi.len() as int;
    let rest = spec_enc_pt_list(s);
    assert(b.subrange(p1, p1 + rest.len() as int) =~= enc.subrange(
        vi.len() as int,
        enc.len() as int,
    ));
    assert(enc.subrange(vi.len() as int, enc.len() as int) =~= rest);
    lemma_pt_list_roundtrip(b, p1, s);
}

/// Append the encoding of a counted point list.
fn enc_pts(buf: &mut Vec<u8>, pts: &Vec<Pt>)
    ensures
        final(buf)@ == old(buf)@ + spec_enc_pts(pts@),
{
    encode_varint(buf, pts.len() as u64);
    enc_pt_list(buf, pts);
    proof {
        assert(buf@ =~= old(buf)@ + spec_enc_pts(pts@));
    }
}

/// Parse a counted point list from `b` at `pos`.
fn dec_pts(b: &Vec<u8>, pos: usize) -> (r: Option<(Vec<Pt>, usize)>)
    ensures
        match r {
            Some((s, end)) => spec_dec_pts(b@, pos as int) == Some((s@, end as int)),
            None => spec_dec_pts(b@, pos as int) is None,
        },
{
    match decode_varint(b, pos) {
        Some((n, p1)) => dec_pt_list(b, p1, n),
        None => None,
    }
}

// ------------------------------------------------------- lists of chains

/// The encoding of a list of point chains, first to last, each behind
/// its own count.
pub open spec fn spec_enc_ptss_list(s: Seq<Seq<Pt>>) -> Seq<u8>
    decreases s.len(),
{
    if s.len() == 0 {
        Seq::<u8>::empty()
    } else {
        spec_enc_pts(s[0]) + spec_enc_ptss_list(s.drop_first())
    }
}

/// Appending one chain extends the list encoding at its end.
pub proof fn lemma_enc_ptss_list_snoc(s: Seq<Seq<Pt>>, c: Seq<Pt>)
    ensures
        spec_enc_ptss_list(s.push(c)) == spec_enc_ptss_list(s) + spec_enc_pts(c),
    decreases s.len(),
{
    if s.len() == 0 {
        let single = s.push(c);
        assert(single.len() == 1);
        assert(single[0] == c);
        assert(single.drop_first() =~= Seq::<Seq<Pt>>::empty());
        assert(spec_enc_ptss_list(single) == spec_enc_pts(c) + spec_enc_ptss_list(
            single.drop_first(),
        ));
        assert(spec_enc_pts(c) + Seq::<u8>::empty() =~= spec_enc_pts(c));
        assert(Seq::<u8>::empty() + spec_enc_pts(c) =~= spec_enc_pts(c));
    } else {
        assert(s.push(c).drop_first() =~= s.drop_first().push(c));
        lemma_enc_ptss_list_snoc(s.drop_first(), c);
        assert(s.push(c)[0] == s[0]);
        assert(spec_enc_pts(s[0]) + (spec_enc_ptss_list(s.drop_first()) + spec_enc_pts(c)) =~= (
        spec_enc_pts(s[0]) + spec_enc_ptss_list(s.drop_first())) + spec_enc_pts(c));
    }
}

/// The encoding of a counted list of point chains.
pub open spec fn spec_enc_ptss(s: Seq<Seq<Pt>>) -> Seq<u8> {
    spec_varint(s.len() as u64) + spec_enc_ptss_list(s)
}

/// Parse `n` point chains.
pub open spec fn spec_dec_ptss_list(b: Seq<u8>, pos: int, n: nat) -> Option<(Seq<Seq<Pt>>, int)>
    decreases n,
{
    if n == 0 {
        Some((Seq::<Seq<Pt>>::empty(), pos))
    } else {
        match spec_dec_pts(b, pos) {
            Some((c, p1)) => match spec_dec_ptss_list(b, p1, (n - 1) as nat) {
                Some((s, p2)) => Some((seq![c] + s, p2)),
                None => None,
            },
            None => None,
        }
    }
}

/// Parse a counted list of point chains.
pub open spec fn spec_dec_ptss(b: Seq<u8>, pos: int) -> Option<(Seq<Seq<Pt>>, int)> {
    match spec_varint_parse(b, pos) {
        Some((n, p1)) => spec_dec_ptss_list(b, p1, n as nat),
        None => None,
    }
}

/// Every chain of the list fits in the count of a varint.
pub open spec fn spec_chains_size_ok(s: Seq<Seq<Pt>>) -> bool {
    forall|i: int| 0 <= i < s.len() ==> (#[trigger] s[i]).len() <= u64::MAX
}

/// A list of chains parses back from wherever its encoding was laid.
pub proof fn lemma_ptss_list_roundtrip(b: Seq<u8>, pos: int, s: Seq<Seq<Pt>>)
    requires
        0 <= pos,
        spec_chains_size_ok(s),
        pos + spec_enc_ptss_list(s).len() <= b.len(),
        b.subrange(pos, pos + spec_enc_ptss_list(s).len() as int) == spec_enc_ptss_list(s),
    ensures
        spec_dec_ptss_list(b, pos, s.len()) == Some(
            (s, pos + spec_enc_ptss_list(s).len() as int),
        ),
    decreases s.len(),
{
    if s.len() > 0 {
        let enc = spec_enc_ptss_list(s);
        let head = spec_enc_pts(s[0]);
        let rest = spec_enc_ptss_list(s.drop_first());
        assert(enc == head + rest);
        assert(b.subrange(pos, pos + head.len() as int) =~= enc.subrange(0, head.len() as int));
        assert(enc.subrange(0, head.len() as int) =~= head);
        lemma_pts_roundtrip(b, pos, s[0]);
        let p1 = pos + head.len() as int;
        assert(b.subrange(p1, p1 + rest.len() as int) =~= enc.subrange(
            head.len() as int,
            enc.len() as int,
        ));
        assert(enc.subrange(head.len() as int, enc.len() as int) =~= rest);
        assert(spec_chains_size_ok(s.drop_first()));
        lemma_ptss_list_roundtrip(b, p1, s.drop_first());
        assert(seq![s[0]] + s.drop_first() =~= s);
    }
}

/// A counted list of chains parses back from wherever its encoding was
/// laid.
pub proof fn lemma_ptss_roundtrip(b: Seq<u8>, pos: int, s: Seq<Seq<Pt>>)
    requires
        0 <= pos,
        s.len() <= u64::MAX,
        spec_chains_size_ok(s),
        pos + spec_enc_ptss(s).len() <= b.len(),
        b.subrange(pos, pos + spec_enc_ptss(s).len() as int) == spec_enc_ptss(s),
    ensures
        spec_dec_ptss(b, pos) == Some((s, pos + spec_enc_ptss(s).len() as int)),
{
    let n = s.len() as u64;
    let vi = spec_varint(n);
    let enc = spec_enc_ptss(s);
    lemma_varint_len(n);
    assert(b.subrange(pos, pos + vi.len() as int) =~= enc.subrange(0, vi.len() as int));
    assert(enc.subrange(0, vi.len() as int) =~= vi);
    lemma_varint_roundtrip(b, pos, n);
    let p1 = pos + vi.len() as int;
    let rest = spec_enc_ptss_list(s);
    assert(b.subrange(p1, p1 + rest.len() as int) =~= enc.subrange(
        vi.len() as int,
        enc.len() as int,
    ));
    assert(enc.subrange(vi.len() as int, enc.len() as int) =~= rest);
    lemma_ptss_list_roundtrip(b, p1, s);
}

/// The chains of a sequence of line strings.
pub open spec fn spec_lines_view(s: Seq<Linestring>) -> Seq<Seq<Pt>> {
    s.map_values(|l: Linestring| l.pts@)
}

/// The chains of a sequence of rings.
pub open spec fn spec_rings_view(s: Seq<Polygon>) -> Seq<Seq<Pt>> {
    s.map_values(|p: Polygon| p.pts@)
}

/// Append the encoding of a counted list of line strings.
fn enc_lines(buf: &mut Vec<u8>, lines: &Vec<Linestring>)
    ensures
        final(buf)@ == old(buf)@ + spec_enc_ptss(spec_lines_view(lines@)),
{
    let ghost m = spec_lines_view(lines@);
    encode_varint(buf, lines.len() as u64);
    let mut i: usize = 0;
    while i < lines.len()
        invariant
            0 <= i <= lines@.len(),
            m == spec_lines_view(lines@),
            m.len() == lines@.len(),
            buf@ == old(buf)@ + spec_varint(lines@.len() as u64) + spec_enc_ptss_list(
                m.take(i as int),
            ),
        decreases lines@.len() - i,
    {
        enc_pts(buf, &lines[i].pts);
        proof {
            assert(m[i as int] == lines@[i as int].pts@);
            assert(m.take(i as int).push(m[i as int]) =~= m.take(i + 1));
            lemma_enc_ptss_list_snoc(m.take(i as int), m[i as int]);
            assert(buf@ =~= old(buf)@ + spec_varint(lines@.len() as u64) + spec_enc_ptss_list(
                m.take(i + 1),
            ));
        }
        i = i + 1;
    }
    proof {
        assert(m.take(m.len() as int) =~= m);
        assert(buf@ =~= old(buf)@ + spec_enc_ptss(m));
    }
}

/// Append the encoding of a counted list of rings.
fn enc_rings(buf: &mut Vec<u8>, rings: &Vec<Polygon>)
    ensures
        final(buf)@ == old(buf)@ + spec_enc_ptss(spec_rings_view(rings@)),
{
    let ghost m = spec_rings_view(rings@);
    encode_varint(buf, rings.len() as u64);
    let mut i: usize = 0;
    while i < rings.len()
        invariant
            0 <= i <= rings@.len(),
            m == spec_rings_view(rings@),
            m.len() == rings@.len(),
            buf@ == old(buf)@ + spec_varint(rings@.len() as u64) + spec_enc_ptss_list(
                m.take(i as int),
            ),
        decreases rings@.len() - i,
    {
        enc_pts(buf, &rings[i].pts);
        proof {
            assert(m[i as int] == rings@[i as int].pts@);
            assert(m.take(i as int).push(m[i as int]) =~= m.take(i + 1));
            lemma_enc_ptss_list_snoc(m.take(i as int), m[i as int]);
            assert(buf@ =~= old(buf)@ + spec_varint(rings@.len() as u64) + spec_enc_ptss_list(
                m.take(i + 1),
            ));
        }
        i = i + 1;
    }
    proof {
        assert(m.take(m.len() as int) =~= m);
        assert(buf@ =~= old(buf)@ + spec_enc_ptss(m));
    }
}

/// Parse a counted list of line strings from `b` at `pos`.
fn dec_lines(b: &Vec<u8>, pos: usize) -> (r: Option<(Vec<Linestring>, usize)>)
    ensures
        match r {
            Some((s, end)) => spec_dec_ptss(b@, pos as int) == Some(
                (spec_lines_view(s@), end as int),
            ),
            None => spec_dec_ptss(b@, pos as int) is None,
        },
{
    let (n, p1) = match decode_varint(b, pos) {
        Some(v) => v,
        None => {
            return None;
        },
    };
    let mut s: Vec<Linestring> = Vec::new();
    let mut p: usize = p1;
    let mut i: u64 = 0;
    proof {
        assert(spec_lines_view(s@) =~= Seq::<Seq<Pt>>::empty());
        if let Some((r0, e0)) = spec_dec_ptss_list(b@, p1 as int, n as nat) {
            assert(Seq::<Seq<Pt>>::empty() + r0 =~= r0);
        }
    }
    while i < n
        invariant
            0 <= i <= n,
            spec_varint_parse(b@, pos as int) == Some((n, p1 as int)),
            spec_dec_ptss_list(b@, p1 as int, n as nat) == (match spec_dec_ptss_list(
                b@,
                p as int,
                (n - i) as nat,
            ) {
                Some((rest, end)) => Some::<(Seq<Seq<Pt>>, int)>((spec_lines_view(s@) + rest, end)),
                None => None::<(Seq<Seq<Pt>>, int)>,
            }),
        decreases n - i,
    {
        let (pts, p2) = match dec_pts(b, p) {
            Some(v) => v,
            None => {
                proof {
                    let m = (n - i) as nat;
                    assert(m >= 1);
                    assert(spec_dec_pts(b@, p as int) is None);
                    assert(spec_dec_ptss_list(b@, p as int, m) is None);
                    assert(spec_dec_ptss_list(b@, p1 as int, n as nat) is None);
                    assert(spec_varint_parse(b@, pos as int) == Some((n, p1 as int)));
                    assert(spec_dec_ptss(b@, pos as int) is None);
                }
                return None;
            },
        };
        proof {
            let m = (n - i) as nat;
            let mv = spec_lines_view(s@);
            if let Some((s2, e2)) = spec_dec_ptss_list(b@, p2 as int, (m - 1) as nat) {
                assert(spec_lines_view(s@.push(Linestring { pts })) =~= mv.push(pts@));
                assert(mv + (seq![pts@] + s2) =~= mv.push(pts@) + s2);
            } else {
                assert(spec_lines_view(s@.push(Linestring { pts })) =~= mv.push(pts@));
            }
        }
        s.push(Linestring { pts });
        p = p2;
        i = i + 1;
    }
    proof {
        assert(spec_lines_view(s@) + Seq::<Seq<Pt>>::empty() =~= spec_lines_view(s@));
    }
    Some((s, p))
}

/// Parse a counted list of rings from `b` at `pos`.
fn dec_rings(b: &Vec<u8>, pos: usize) -> (r: Option<(Vec<Polygon>, usize)>)
    ensures
        match r {
            Some((s, end)) => spec_dec_ptss(b@, pos as int) == Some(
                (spec_rings_view(s@), end as int),
            ),
            None => spec_dec_ptss(b@, pos as int) is None,
        },
{
    let (n, p1) = match decode_varint(b, pos) {
        Some(v) => v,
        None => {
            return None;
        },
    };
    let mut s: Vec<Polygon> = Vec::new();
    let mut p: usize = p1;
    let mut i: u64 = 0;
    proof {
        assert(spec_rings_view(s@) =~= Seq::<Seq<Pt>>::empty());
        if let Some((r0, e0)) = spec_dec_ptss_list(b@, p1 as int, n as nat) {
            assert(Seq::<Seq<Pt>>::empty() + r0 =~= r0);
        }
    }
    while i < n
        invariant
            0 <= i <= n,
            spec_varint_parse(b@, pos as int) == Some((n, p1 as int)),
            spec_dec_ptss_list(b@, p1 as int, n as nat) == (match spec_dec_ptss_list(
                b@,
                p as int,
                (n - i) as nat,
            ) {
                Some((rest, end)) => Some::<(Seq<Seq<Pt>>, int)>((spec_rings_view(s@) + rest, end)),
                None => None::<(Seq<Seq<Pt>>, int)>,
            }),
        decreases n - i,
    {
        let (pts, p2) = match dec_pts(b, p) {
            Some(v) => v,
            None => {
                proof {
                    let m = (n - i) as nat;
                    assert(m >= 1);
                    assert(spec_dec_pts(b@, p as int) is None);
                    assert(spec_dec_ptss_list(b@, p as int, m) is None);
                    assert(spec_dec_ptss_list(b@, p1 as int, n as nat) is None);
                    assert(spec_varint_parse(b@, pos as int) == Some((n, p1 as int)));
                    assert(spec_dec_ptss(b@, pos as int) is None);
                }
                return None;
            },
        };
        proof {
            let m = (n - i) as nat;
            let mv = spec_rings_view(s@);
            if let Some((s2, e2)) = spec_dec_ptss_list(b@, p2 as int, (m - 1) as nat) {
                assert(spec_rings_view(s@.push(Polygon { pts })) =~= mv.push(pts@));
                assert(mv + (seq![pts@] + s2) =~= mv.push(pts@) + s2);
            } else {
                assert(spec_rings_view(s@.push(Polygon { pts })) =~= mv.push(pts@));
            }
        }
        s.push(Polygon { pts });
        p = p2;
        i = i + 1;
    }
    proof {
        assert(spec_rings_view(s@) + Seq::<Seq<Pt>>::empty() =~= spec_rings_view(s@));
    }
    Some((s, p))
}

// ---------------------------------------------------------------- entries

/// The entry that marks an unused slot.
pub open spec fn spec_absent_entry() -> Entry {
    Entry {
        id: spec_id(0),
        bbox: BBox { x_min: i64::MAX, y_min: i64::MAX, x_max: i64::MIN, y_max: i64::MIN },
    }
}

/// The encoding of an entry: identifier, then the four box coordinates.
pub open spec fn spec_enc_entry(e: Entry) -> Seq<u8> {
    spec_enc_u64(e.id@) + spec_enc_i64(e.bbox.x_min) + spec_enc_i64(e.bbox.y_min) + spec_enc_i64(
        e.bbox.x_max,
    ) + spec_enc_i64(e.bbox.y_max)
}

/// Parse an entry.
pub open spec fn spec_dec_entry(b: Seq<u8>, pos: int) -> Option<(Entry, int)> {
    if 0 <= pos && pos + 40 <= b.len() {
        match (
            spec_dec_u64(b, pos),
            spec_dec_i64(b, pos + 8),
            spec_dec_i64(b, pos + 16),
            spec_dec_i64(b, pos + 24),
            spec_dec_i64(b, pos + 32),
        ) {
            (Some((id, _)), Some((x0, _)), Some((y0, _)), Some((x1, _)), Some((y1, _))) => Some(
                (
                    Entry { id: spec_id(id), bbox: BBox { x_min: x0, y_min: y0, x_max: x1, y_max: y1 } },
                    pos + 40,
                ),
            ),
            _ => None,
        }
    } else {
        None
    }
}

/// An entry parses back from wherever its encoding was laid.
pub proof fn lemma_entry_roundtrip(b: Seq<u8>, pos: int, e: Entry)
    requires
        0 <= pos,
        pos + 40 <= b.len(),
        b.subrange(pos, pos + 40) == spec_enc_entry(e),
    ensures
        spec_dec_entry(b, pos) == Some((e, pos + 40)),
{
    vstd::bytes::lemma_auto_spec_u64_to_from_le_bytes();
    let enc = spec_enc_entry(e);
    assert(b.subrange(pos, pos + 8) =~= enc.subrange(0, 8));
    assert(enc.subrange(0, 8) =~= spec_enc_u64(e.id@));
    assert(b.subrange(pos + 8, pos + 16) =~= enc.subrange(8, 16));
    assert(enc.subrange(8, 16) =~= spec_enc_i64(e.bbox.x_min));
    assert(b.subrange(pos + 16, pos + 24) =~= enc.subrange(16, 24));
    assert(enc.subrange(16, 24) =~= spec_enc_i64(e.bbox.y_min));
    assert(b.subrange(pos + 24, pos + 32) =~= enc.subrange(24, 32));
    assert(enc.subrange(24, 32) =~= spec_enc_i64(e.bbox.x_max));
    assert(b.subrange(pos + 32, pos + 40) =~= enc.subrange(32, 40));
    assert(enc.subrange(32, 40) =~= spec_enc_i64(e.bbox.y_max));
    lemma_u64_roundtrip(b, pos, e.id@);
    lemma_i64_roundtrip(b, pos + 8, e.bbox.x_min);
    lemma_i64_roundtrip(b, pos + 16, e.bbox.y_min);
    lemma_i64_roundtrip(b, pos + 24, e.bbox.x_max);
    lemma_i64_roundtrip(b, pos + 32, e.bbox.y_max);
    crate::common::lemma_spec_id(e.id@);
    crate::common::lemma_id_eq(spec_id(e.id@), e.id);
}

/// The encoding of a list of entries, first to last.
pub open spec fn spec_enc_entry_list(s: Seq<Entry>) -> Seq<u8>
    decreases s.len(),
{
    if s.len() == 0 {
        Seq::<u8>::empty()
    } else {
        spec_enc_entry(s[0]) + spec_enc_entry_list(s.drop_first())
    }
}

/// Each entry encoding is 40 bytes.
pub proof fn lemma_enc_entry_list_len(s: Seq<Entry>)
    ensures
        spec_enc_entry_list(s).len() == 40 * s.len(),
    decreases s.len(),
{
    vstd::bytes::lemma_auto_spec_u64_to_from_le_bytes();
    if s.len() > 0 {
        lemma_enc_entry_list_len(s.drop_first());
    }
}

/// Appending one entry extends the list encoding at its end.
pub proof fn lemma_enc_entry_list_snoc(s: Seq<Entry>, e: Entry)
    ensures
        spec_enc_entry_list(s.push(e)) == spec_enc_entry_list(s) + spec_enc_entry(e),
    decreases s.len(),
{
    if s.len() == 0 {
        let single = s.push(e);
        assert(single.len() == 1);
        assert(single[0] == e);
        assert(single.drop_first() =~= Seq::<Entry>::empty());
        assert(spec_enc_entry_list(single) == spec_enc_entry(e) + spec_enc_entry_list(
            single.drop_first(),
        ));
        assert(spec_enc_entry(e) + Seq::<u8>::empty() =~= spec_enc_entry(e));
        assert(Seq::<u8>::empty() + spec_enc_entry(e) =~= spec_enc_entry(e));
    } else {
        assert(s.push(e).drop_first() =~= s.drop_first().push(e));
        lemma_enc_entry_list_snoc(s.drop_first(), e);
        assert(s.push(e)[0] == s[0]);
        assert(spec_enc_entry(s[0]) + (spec_enc_entry_list(s.drop_first()) + spec_enc_entry(e))
            =~= (spec_enc_entry(s[0]) + spec_enc_entry_list(s.drop_first())) + spec_enc_entry(e));
    }
}

/// Parse `n` entries.
pub open spec fn spec_dec_entry_list(b: Seq<u8>, pos: int, n: nat) -> Option<(Seq<Entry>, int)>
    decreases n,
{
    if n == 0 {
        Some((Seq::<Entry>::empty(), pos))
    } else {
        match spec_dec_entry(b, pos) {
            Some((e, p1)) => match spec_dec_entry_list(b, p1, (n - 1) as nat) {
                Some((s, p2)) => Some((seq![e] + s, p2)),
                None => None,
            },
            None => None,
        }
    }
}

/// A list of entries parses back from wherever its encoding was laid.
pub proof fn lemma_entry_list_roundtrip(b: Seq<u8>, pos: int, s: Seq<Entry>)
    requires
        0 <= pos,
        pos + spec_enc_entry_list(s).len() <= b.len(),
        b.subrange(pos, pos + spec_enc_entry_list(s).len() as int) == spec_enc_entry_list(s),
    ensures
        spec_dec_entry_list(b, pos, s.len()) == Some(
            (s, pos + spec_enc_entry_list(s).len() as int),
        ),
    decreases s.len(),
{
    lemma_enc_entry_list_len(s);
    if s.len() > 0 {
        let enc = spec_enc_entry_list(s);
        let rest = spec_enc_entry_list(s.drop_first());
        lemma_enc_entry_list_len(s.drop_first());
        assert(b.subrange(pos, pos + 40) =~= enc.subrange(0, 40));
        assert(enc.subrange(0, 40) =~= spec_enc_entry(s[0]));
        lemma_entry_roundtrip(b, pos, s[0]);
        assert(b.subrange(pos + 40, pos + 40 + rest.len() as int) =~= enc.subrange(
            40,
            enc.len() as int,
        ));
        assert(enc.subrange(40, enc.len() as int) =~= rest);
        lemma_entry_list_roundtrip(b, pos + 40, s.drop_first());
        assert(seq![s[0]] + s.drop_first() =~= s);
    }
}

/// A node's entries padded to `M_NODE` slots with absent entries.
pub open spec fn spec_pad6(s: Seq<Entry>) -> Seq<Entry>
    recommends
        s.len() <= M_NODE,
{
    s + Seq::new((M_NODE - s.len()) as nat, |i: int| spec_absent_entry())
}

/// The valid entries of a slot sequence, in slot order.
pub open spec fn spec_filter_valid(s: Seq<Entry>) -> Seq<Entry>
    decreases s.len(),
{
    if s.len() == 0 {
        Seq::<Entry>::empty()
    } else if s.last().id@ > 0 {
        spec_filter_valid(s.drop_last()).push(s.last())
    } else {
        spec_filter_valid(s.drop_last())
    }
}

/// Filtering a sequence of valid entries returns it unchanged.
pub proof fn lemma_filter_all_valid(s: Seq<Entry>)
    requires
        forall|i: int| 0 <= i < s.len() ==> s[i].id@ > 0,
    ensures
        spec_filter_valid(s) == s,
    decreases s.len(),
{
    if s.len() > 0 {
        lemma_filter_all_valid(s.drop_last());
        assert(spec_filter_valid(s.drop_last()).push(s.last()) =~= s);
    }
}

/// Absent padding does not change the valid entries.
pub proof fn lemma_filter_pad(s: Seq<Entry>, k: nat)
    ensures
        spec_filter_valid(s + Seq::new(k, |i: int| spec_absent_entry())) == spec_filter_valid(s),
    decreases k,
{
    crate::common::lemma_spec_id(0);
    if k == 0 {
        assert(s + Seq::new(0, |i: int| spec_absent_entry()) =~= s);
    } else {
        let padded = s + Seq::new(k, |i: int| spec_absent_entry());
        assert(padded.last() == spec_absent_entry());
        assert(padded.drop_last() =~= s + Seq::new((k - 1) as nat, |i: int| spec_absent_entry()));
        lemma_filter_pad(s, (k - 1) as nat);
    }
}

/// A padded sequence of valid entries filters back to itself.
pub proof fn lemma_pad_filter(s: Seq<Entry>)
    requires
        s.len() <= M_NODE,
        forall|i: int| 0 <= i < s.len() ==> s[i].id@ > 0,
    ensures
        spec_filter_valid(spec_pad6(s)) == s,
{
    lemma_filter_pad(s, (M_NODE - s.len()) as nat);
    lemma_filter_all_valid(s);
}

/// Append the encoding of one entry.
fn enc_entry(buf: &mut Vec<u8>, e: &Entry)
    ensures
        final(buf)@ == old(buf)@ + spec_enc_entry(*e),
{
    enc_u64(buf, e.id.value());
    enc_i64(buf, e.bbox.x_min);
    enc_i64(buf, e.bbox.y_min);
    enc_i64(buf, e.bbox.x_max);
    enc_i64(buf, e.bbox.y_max);
    proof {
        assert(buf@ =~= old(buf)@ + spec_enc_entry(*e));
    }
}

/// Parse one entry from `b` at `pos`.
fn dec_entry(b: &Vec<u8>, pos: usize) -> (r: Option<(Entry, usize)>)
    ensures
        match r {
            Some((e, end)) => spec_dec_entry(b@, pos as int) == Some((e, end as int)),
            None => spec_dec_entry(b@, pos as int) is None,
        },
{
    if b.len() < 40 || pos > b.len() - 40 {
        return None;
    }
    let id = match dec_u64(b, pos) {
        Some(v) => v.0,
        None => {
            return None;
        },
    };
    let x0 = match dec_i64(b, pos + 8) {
        Some(v) => v.0,
        None => {
            return None;
        },
    };
    let y0 = match dec_i64(b, pos + 16) {
        Some(v) => v.0,
        None => {
            return None;
        },
    };
    let x1 = match dec_i64(b, pos + 24) {
        Some(v) => v.0,
        None => {
            return None;
        },
    };
    let y1 = match dec_i64(b, pos + 32) {
        Some(v) => v.0,
        None => {
            return None;
        },
    };
    let e = Entry { id: Id::new(id), bbox: BBox { x_min: x0, y_min: y0, x_max: x1, y_max: y1 } };
    proof {
        crate::common::lemma_spec_id(id);
        crate::common::lemma_id_eq(e.id, spec_id(id));
    }
    Some((e, pos + 40))
}

// ------------------------------------------------------- nodes and roots

/// The encoding of a node: its entries padded to `M_NODE` slots.
pub open spec fn spec_enc_node(s: Seq<Entry>) -> Seq<u8> {
    spec_enc_entry_list(spec_pad6(s))
}

/// Parse a node payload: exactly `M_NODE` slots, the valid ones kept.
pub open spec fn spec_dec_node(b: Seq<u8>) -> Option<Seq<Entry>> {
    match spec_dec_entry_list(b, 0, M_NODE as nat) {
        Some((slots, end)) => if end == b.len() {
            Some(spec_filter_valid(slots))
        } else {
            None
        },
        None => None,
    }
}

/// The encoding of a root: the node slots, then the element count.
pub open spec fn spec_enc_root(s: Seq<Entry>, n_elem: u64) -> Seq<u8> {
    spec_enc_entry_list(spec_pad6(s)) + spec_enc_u64(n_elem)
}

/// Parse a root payload.
pub open spec fn spec_dec_root(b: Seq<u8>) -> Option<(Seq<Entry>, u64)> {
    match spec_dec_entry_list(b, 0, M_NODE as nat) {
        Some((slots, p1)) => match spec_dec_u64(b, p1) {
            Some((n, end)) => if end == b.len() {
                Some((spec_filter_valid(slots), n))
            } else {
                None
            },
            None => None,
        },
        None => None,
    }
}

/// A node payload parses back to the node's entries.
pub proof fn lemma_node_roundtrip(s: Seq<Entry>)
    requires
        s.len() <= M_NODE,
        forall|i: int| 0 <= i < s.len() ==> s[i].id@ > 0,
    ensures
        spec_dec_node(spec_enc_node(s)) == Some(s),
        spec_enc_node(s).len() == 240,
{
    let slots = spec_pad6(s);
    let b = spec_enc_node(s);
    lemma_enc_entry_list_len(slots);
    assert(slots.len() == M_NODE);
    assert(b.subrange(0, b.len() as int) =~= b);
    lemma_entry_list_roundtrip(b, 0, slots);
    lemma_pad_filter(s);
}

/// A root payload parses back to the root's entries and count.
pub proof fn lemma_root_roundtrip(s: Seq<Entry>, n_elem: u64)
    requires
        s.len() <= M_NODE,
        forall|i: int| 0 <= i < s.len() ==> s[i].id@ > 0,
    ensures
        spec_dec_root(spec_enc_root(s, n_elem)) == Some((s, n_elem)),
        spec_enc_root(s, n_elem).len() == 248,
{
    vstd::bytes::lemma_auto_spec_u64_to_from_le_bytes();
    let slots = spec_pad6(s);
    let b = spec_enc_root(s, n_elem);
    let nodes = spec_enc_entry_list(slots);
    lemma_enc_entry_list_len(slots);
    assert(slots.len() == M_NODE);
    assert(b.subrange(0, 240) =~= nodes);
    lemma_entry_list_roundtrip(b, 0, slots);
    assert(b.subrange(240, 248) =~= spec_enc_u64(n_elem));
    lemma_u64_roundtrip(b, 240, n_elem);
    lemma_pad_filter(s);
}

/// Encode the slots of a node, padded to `M_NODE`.
fn enc_node_slots(buf: &mut Vec<u8>, node: &Node)
    requires
        node.wf(),
    ensures
        final(buf)@ == old(buf)@ + spec_enc_entry_list(spec_pad6(node@)),
{
    let n = node.len();
    let mut i: usize = 0;
    while i < n
        invariant
            node.wf(),
            n == node@.len(),
            0 <= i <= n,
            buf@ == old(buf)@ + spec_enc_entry_list(node@.take(i as int)),
        decreases n - i,
    {
        let e = node.child(i);
        enc_entry(buf, &e);
        proof {
            assert(node@.take(i as int).push(node@[i as int]) =~= node@.take(i + 1));
            lemma_enc_entry_list_snoc(node@.take(i as int), node@[i as int]);
            assert(buf@ =~= old(buf)@ + spec_enc_entry_list(node@.take(i + 1)));
        }
        i = i + 1;
    }
    proof {
        assert(node@.take(n as int) =~= node@);
    }
    let absent = Entry::default();
    proof {
        crate::common::lemma_spec_id(0);
        crate::common::lemma_id_eq(absent.id, spec_id(0));
        assert(absent == spec_absent_entry());
    }
    let mut j: usize = n;
    while j < M_NODE
        invariant
            n == node@.len() <= M_NODE,
            n <= j <= M_NODE,
            absent == spec_absent_entry(),
            buf@ == old(buf)@ + spec_enc_entry_list(
                node@ + Seq::new((j - n) as nat, |i: int| spec_absent_entry()),
            ),
        decreases M_NODE - j,
    {
        enc_entry(buf, &absent);
        proof {
            let pre = node@ + Seq::new((j - n) as nat, |i: int| spec_absent_entry());
            assert(pre.push(spec_absent_entry()) =~= node@ + Seq::new(
                (j + 1 - n) as nat,
                |i: int| spec_absent_entry(),
            ));
            lemma_enc_entry_list_snoc(pre, spec_absent_entry());
            assert(buf@ =~= old(buf)@ + spec_enc_entry_list(
                node@ + Seq::new((j + 1 - n) as nat, |i: int| spec_absent_entry()),
            ));
        }
        j = j + 1;
    }
    proof {
        assert(node@ + Seq::new((M_NODE - n) as nat, |i: int| spec_absent_entry()) =~= spec_pad6(
            node@,
        ));
    }
}

/// Encode a node payload.
pub fn enc_node(node: &Node) -> (r: Vec<u8>)
    requires
        node.wf(),
    ensures
        r@ == spec_enc_node(node@),
{
    let mut buf: Vec<u8> = Vec::new();
    enc_node_slots(&mut buf, node);
    proof {
        assert(buf@ =~= spec_enc_node(node@));
    }
    buf
}

/// Encode a root payload.
pub fn enc_root(root: &Root) -> (r: Vec<u8>)
    requires
        root.node.wf(),
    ensures
        r@ == spec_enc_root(root.node@, root.n_elem as u64),
{
    let mut buf: Vec<u8> = Vec::new();
    enc_node_slots(&mut buf, &root.node);
    enc_u64(&mut buf, root.n_elem as u64);
    proof {
        assert(buf@ =~= spec_enc_root(root.node@, root.n_elem as u64));
    }
    buf
}

/// Parse `M_NODE` entry slots from the start of a payload.
fn dec_slots(b: &Vec<u8>) -> (r: Option<(Vec<Entry>, usize)>)
    ensures
        match r {
            Some((s, end)) => spec_dec_entry_list(b@, 0, M_NODE as nat) == Some((s@, end as int))
                && s@.len() == M_NODE,
            None => spec_dec_entry_list(b@, 0, M_NODE as nat) is None,
        },
{
    let mut s: Vec<Entry> = Vec::new();
    let mut p: usize = 0;
    let mut i: usize = 0;
    proof {
        if let Some((r0, e0)) = spec_dec_entry_list(b@, 0, M_NODE as nat) {
            assert(Seq::<Entry>::empty() + r0 =~= r0);
        }
    }
    while i < M_NODE
        invariant
            0 <= i <= M_NODE,
            s@.len() == i,
            spec_dec_entry_list(b@, 0, M_NODE as nat) == (match spec_dec_entry_list(
                b@,
                p as int,
                (M_NODE - i) as nat,
            ) {
                Some((rest, end)) => Some::<(Seq<Entry>, int)>((s@ + rest, end)),
                None => None::<(Seq<Entry>, int)>,
            }),
        decreases M_NODE - i,
    {
        let (e, p2) = match dec_entry(b, p) {
            Some(v) => v,
            None => {
                return None;
            },
        };
        proof {
            let m = (M_NODE - i) as nat;
            if let Some((s2, e2)) = spec_dec_entry_list(b@, p2 as int, (m - 1) as nat) {
                assert(s@ + (seq![e] + s2) =~= s@.push(e) + s2);
            }
        }
        s.push(e);
        p = p2;
        i = i + 1;
    }
    proof {
        assert(s@ + Seq::<Entry>::empty() =~= s@);
    }
    Some((s, p))
}

/// Keep the valid entries of the slots, in slot order.
fn filter_slots(slots: Vec<Entry>) -> (r: Vec<Entry>)
    ensures
        r@ == spec_filter_valid(slots@),
        forall|i: int| 0 <= i < r@.len() ==> r@[i].id@ > 0,
        r@.len() <= slots@.len(),
{
    let mut r: Vec<Entry> = Vec::new();
    let mut i: usize = 0;
    while i < slots.len()
        invariant
            0 <= i <= slots@.len(),
            r@ == spec_filter_valid(slots@.take(i as int)),
            forall|j: int| 0 <= j < r@.len() ==> r@[j].id@ > 0,
            r@.len() <= i,
        decreases slots@.len() - i,
    {
        proof {
            assert(slots@.take(i + 1).drop_last() =~= slots@.take(i as int));
            assert(slots@.take(i + 1).last() == slots@[i as int]);
        }
        let e = slots[i];
        if e.id.is_valid() {
            r.push(e);
        }
        i = i + 1;
    }
    proof {
        assert(slots@.take(slots@.len() as int) =~= slots@);
    }
    r
}

/// Parse a node payload.
pub fn dec_node(b: &Vec<u8>) -> (r: Option<Node>)
    ensures
        match r {
            Some(n) => spec_dec_node(b@) == Some(n@) && n.wf(),
            None => spec_dec_node(b@) is None,
        },
{
    let (slots, end) = match dec_slots(b) {
        Some(v) => v,
        None => {
            return None;
        },
    };
    if end != b.len() {
        return None;
    }
    let entries = filter_slots(slots);
    Some(Node::from_entries(entries))
}

/// Parse a root payload.
pub fn dec_root(b: &Vec<u8>) -> (r: Option<Root>)
    ensures
        match r {
            Some(root) => spec_dec_root(b@) == Some((root.node@, root.n_elem as u64))
                && root.node.wf(),
            None => spec_dec_root(b@) is None || (spec_dec_root(b@) matches Some((s, n)) && n
                > usize::MAX),
        },
{
    let (slots, p1) = match dec_slots(b) {
        Some(v) => v,
        None => {
            return None;
        },
    };
    let (n, end) = match dec_u64(b, p1) {
        Some(v) => v,
        None => {
            return None;
        },
    };
    if end != b.len() {
        return None;
    }
    if n > usize::MAX as u64 {
        return None;
    }
    let entries = filter_slots(slots);
    Some(Root::new(Node::from_entries(entries), n as usize))
}


// ------------------------------------------------------------ geometries

/// The counts of a geometry model fit behind varints.
pub open spec fn spec_model_size_ok(g: crate::gis::GeomModel) -> bool {
    match g {
        crate::gis::GeomModel::Point { pts, data } => pts.len() <= u64::MAX && data.len()
            <= u64::MAX,
        crate::gis::GeomModel::Linestring { lines, data } => lines.len() <= u64::MAX
            && spec_chains_size_ok(lines) && data.len() <= u64::MAX,
        crate::gis::GeomModel::Polygon { rings, data } => rings.len() <= u64::MAX
            && spec_chains_size_ok(rings) && data.len() <= u64::MAX,
    }
}

/// The encoding of a geometry: a tag byte, the shape, then the data.
pub open spec fn spec_enc_geom(g: crate::gis::GeomModel) -> Seq<u8> {
    match g {
        crate::gis::GeomModel::Point { pts, data } => seq![0u8] + spec_enc_pts(pts)
            + spec_enc_bytes(data),
        crate::gis::GeomModel::Linestring { lines, data } => seq![1u8] + spec_enc_ptss(lines)
            + spec_enc_bytes(data),
        crate::gis::GeomModel::Polygon { rings, data } => seq![2u8] + spec_enc_ptss(rings)
            + spec_enc_bytes(data),
    }
}

/// Parse a geometry payload; the whole payload must be consumed.
pub open spec fn spec_dec_geom(b: Seq<u8>) -> Option<crate::gis::GeomModel> {
    if b.len() == 0 {
        None
    } else if b[0] == 0 {
        match spec_dec_pts(b, 1) {
            Some((pts, p1)) => match spec_dec_bytes(b, p1) {
                Some((data, p2)) => if p2 == b.len() {
                    Some(crate::gis::GeomModel::Point { pts, data })
                } else {
                    None
                },
                None => None,
            },
            None => None,
        }
    } else if b[0] == 1 {
        match spec_dec_ptss(b, 1) {
            Some((lines, p1)) => match spec_dec_bytes(b, p1) {
                Some((data, p2)) => if p2 == b.len() {
                    Some(crate::gis::GeomModel::Linestring { lines, data })
                } else {
                    None
                },
                None => None,
            },
            None => None,
        }
    } else if b[0] == 2 {
        match spec_dec_ptss(b, 1) {
            Some((rings, p1)) => match spec_dec_bytes(b, p1) {
                Some((data, p2)) => if p2 == b.len() {
                    Some(crate::gis::GeomModel::Polygon { rings, data })
                } else {
                    None
                },
                None => None,
            },
            None => None,
        }
    } else {
        None
    }
}

/// A geometry payload parses back to the geometry it encodes.
pub proof fn lemma_geom_roundtrip(g: crate::gis::GeomModel)
    requires
        spec_model_size_ok(g),
    ensures
        spec_dec_geom(spec_enc_geom(g)) == Some(g),
{
    let b = spec_enc_geom(g);
    match g {
        crate::gis::GeomModel::Point { pts, data } => {
            let e1 = spec_enc_pts(pts);
            let e2 = spec_enc_bytes(data);
            assert(b[0] == 0);
            assert(b.subrange(1, 1 + e1.len() as int) =~= e1);
            lemma_pts_roundtrip(b, 1, pts);
            let p1 = 1 + e1.len() as int;
            assert(b.subrange(p1, p1 + e2.len() as int) =~= e2);
            lemma_bytes_roundtrip(b, p1, data);
        },
        crate::gis::GeomModel::Linestring { lines, data } => {
            let e1 = spec_enc_ptss(lines);
            let e2 = spec_enc_bytes(data);
            assert(b[0] == 1);
            assert(b.subrange(1, 1 + e1.len() as int) =~= e1);
            lemma_ptss_roundtrip(b, 1, lines);
            let p1 = 1 + e1.len() as int;
            assert(b.subrange(p1, p1 + e2.len() as int) =~= e2);
            lemma_bytes_roundtrip(b, p1, data);
        },
        crate::gis::GeomModel::Polygon { rings, data } => {
            let e1 = spec_enc_ptss(rings);
            let e2 = spec_enc_bytes(data);
            assert(b[0] == 2);
            assert(b.subrange(1, 1 + e1.len() as int) =~= e1);
            lemma_ptss_roundtrip(b, 1, rings);
            let p1 = 1 + e1.len() as int;
            assert(b.subrange(p1, p1 + e2.len() as int) =~= e2);
            lemma_bytes_roundtrip(b, p1, data);
        },
    }
}

/// Encode a geometry payload.
pub fn enc_geom(g: &Geom) -> (r: Vec<u8>)
    ensures
        r@ == spec_enc_geom(g@),
{
    let mut buf: Vec<u8> = Vec::new();
    match g {
        Geom::Point(p) => {
            buf.push(0);
            enc_pts(&mut buf, &p.pts);
            enc_bytes(&mut buf, &p.data);
            proof {
                assert(buf@ =~= spec_enc_geom(g@));
            }
        },
        Geom::Linestring(ls) => {
            buf.push(1);
            enc_lines(&mut buf, &ls.lines);
            enc_bytes(&mut buf, &ls.data);
            proof {
                assert(buf@ =~= spec_enc_geom(g@));
            }
        },
        Geom::Polygon(pg) => {
            buf.push(2);
            enc_rings(&mut buf, &pg.rings);
            enc_bytes(&mut buf, &pg.data);
            proof {
                assert(buf@ =~= spec_enc_geom(g@));
            }
        },
    }
    buf
}

/// Parse a geometry payload.
pub fn dec_geom(b: &Vec<u8>) -> (r: Option<Geom>)
    ensures
        match r {
            Some(g) => spec_dec_geom(b@) == Some(g@),
            None => spec_dec_geom(b@) is None,
        },
{
    if b.len() == 0 {
        return None;
    }
    let tag = b[0];
    if tag == 0 {
        let (pts, p1) = match dec_pts(b, 1) {
            Some(v) => v,
            None => {
                return None;
            },
        };
        let (data, p2) = match dec_bytes(b, p1) {
            Some(v) => v,
            None => {
                return None;
            },
        };
        if p2 != b.len() {
            return None;
        }
        Some(Geom::Point(Points { pts, data }))
    } else if tag == 1 {
        let (lines, p1) = match dec_lines(b, 1) {
            Some(v) => v,
            None => {
                return None;
            },
        };
        let (data, p2) = match dec_bytes(b, p1) {
            Some(v) => v,
            None => {
                return None;
            },
        };
        if p2 != b.len() {
            return None;
        }
        Some(Geom::Linestring(Linestrings { lines, data }))
    } else if tag == 2 {
        let (rings, p1) = match dec_rings(b, 1) {
            Some(v) => v,
            None => {
                return None;
            },
        };
        let (data, p2) = match dec_bytes(b, p1) {
            Some(v) => v,
            None => {
                return None;
            },
        };
        if p2 != b.len() {
            return None;
        }
        Some(Geom::Polygon(Polygons { rings, data }))
    } else {
        None
    }
}


} // verus!
