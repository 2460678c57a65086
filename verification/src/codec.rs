//! Cache codec: a fixed binary serialization of the classified way
//! collections, so the expensive ingestion steps run once and later runs
//! load the cache directly.
//!
//! The format is little-endian and length-prefixed.  It opens with the
//! scale divisor used to produce the geometry; a reader rejects a cache
//! written under a different scale as a schema mismatch rather than
//! rendering skewed geometry.  Any truncated or malformed input is a
//! schema mismatch: a corrupt cache is regenerated from source, never
//! partially recovered.

use vstd::prelude::*;

use crate::RATIO_ADJUST;
use crate::data::Geo;
use crate::data::GeoModel;
use crate::data::Polygon;
use crate::data::Location;
use crate::data::PolygonModel;
use crate::data::Vertex;
use crate::data::LocationModel;
use crate::data::Way;
use crate::data::WayClass;
use crate::data::WayForm;
use crate::data::WayModel;
use crate::data::WayPoint;
use crate::errors::GeoError;

verus! {

use vstd::bytes::spec_u64_from_le_bytes;
use vstd::bytes::spec_u64_to_le_bytes;
use vstd::bytes::u64_from_le_bytes;
use vstd::bytes::u64_to_le_bytes;
use vstd::slice::slice_subrange;
use vstd::slice::slice_to_vec;
use vstd::string::StringSliceAdditionalSpecFns;
use vstd::utf8::decode_utf8;
use vstd::utf8::encode_utf8;
use vstd::utf8::valid_utf8;

/// The classified ways of one ingestion run, grouped by road class.  This
/// is the shape the cache file stores.
#[derive(Clone, Debug, PartialEq)]
pub struct ClassifiedWays {
    pub minor: Vec<Way>,
    pub b_roads: Vec<Way>,
    pub a_roads: Vec<Way>,
    pub motorways: Vec<Way>,
    pub unclassified: Vec<Way>,
    pub unknown: Vec<Way>,
}

/// The mathematical content of a [`ClassifiedWays`].
pub struct ClassifiedWaysModel {
    pub minor: Seq<WayModel>,
    pub b_roads: Seq<WayModel>,
    pub a_roads: Seq<WayModel>,
    pub motorways: Seq<WayModel>,
    pub unclassified: Seq<WayModel>,
    pub unknown: Seq<WayModel>,
}

impl View for ClassifiedWays {
    type V = ClassifiedWaysModel;

    open spec fn view(&self) -> ClassifiedWaysModel {
        ClassifiedWaysModel {
            minor: self.minor@.map_values(|w: Way| w@),
            b_roads: self.b_roads@.map_values(|w: Way| w@),
            a_roads: self.a_roads@.map_values(|w: Way| w@),
            motorways: self.motorways@.map_values(|w: Way| w@),
            unclassified: self.unclassified@.map_values(|w: Way| w@),
            unknown: self.unknown@.map_values(|w: Way| w@),
        }
    }
}

/// The cache byte of each road class.
pub open spec fn class_code(c: WayClass) -> u8 {
    match c {
        WayClass::Minor => 0,
        WayClass::BRoad => 1,
        WayClass::ARoad => 2,
        WayClass::Motorway => 3,
        WayClass::Unclassified => 4,
        WayClass::Unknown => 5,
    }
}

/// The road class of a cache byte.
pub open spec fn class_of_code(b: u8) -> Option<WayClass> {
    if b == 0 {
        Some(WayClass::Minor)
    } else if b == 1 {
        Some(WayClass::BRoad)
    } else if b == 2 {
        Some(WayClass::ARoad)
    } else if b == 3 {
        Some(WayClass::Motorway)
    } else if b == 4 {
        Some(WayClass::Unclassified)
    } else if b == 5 {
        Some(WayClass::Unknown)
    } else {
        None
    }
}

/// The cache byte of each road form.
pub open spec fn form_code(f: WayForm) -> u8 {
    match f {
        WayForm::SingleCarriageway => 0,
        WayForm::DualCarriageway => 1,
        WayForm::CollapsedDualCarriageway => 2,
        WayForm::Roundabout => 3,
        WayForm::SlipRoad => 4,
        WayForm::TransitWay => 5,
    }
}

/// The road form of a cache byte.
pub open spec fn form_of_code(b: u8) -> Option<WayForm> {
    if b == 0 {
        Some(WayForm::SingleCarriageway)
    } else if b == 1 {
        Some(WayForm::DualCarriageway)
    } else if b == 2 {
        Some(WayForm::CollapsedDualCarriageway)
    } else if b == 3 {
        Some(WayForm::Roundabout)
    } else if b == 4 {
        Some(WayForm::SlipRoad)
    } else if b == 5 {
        Some(WayForm::TransitWay)
    } else {
        None
    }
}

/// Encoding of one integer, little endian.
pub open spec fn enc_u64(x: u64) -> Seq<u8> {
    spec_u64_to_le_bytes(x)
}

/// Encoding of one signed coordinate: its two's-complement bits.
pub open spec fn enc_i64(x: i64) -> Seq<u8> {
    enc_u64(x as u64)
}

/// Encoding of one truth value: a single byte, zero or one.
pub open spec fn enc_bool(b: bool) -> Seq<u8> {
    seq![
        if b {
            1u8
        } else {
            0u8
        },
    ]
}

/// Encoding of a string: the byte length, then the UTF-8 bytes.
pub open spec fn enc_str(s: Seq<char>) -> Seq<u8> {
    enc_u64(encode_utf8(s).len() as u64) + encode_utf8(s)
}

/// Encoding of one way point.
pub open spec fn enc_waypoint(p: WayPoint) -> Seq<u8> {
    enc_bool(p.is_start) + enc_i64(p.x) + enc_i64(p.y)
}

/// Encoding of a point sequence, in order.
pub open spec fn enc_points(pts: Seq<WayPoint>) -> Seq<u8>
    decreases pts.len(),
{
    if pts.len() == 0 {
        Seq::empty()
    } else {
        enc_waypoint(pts[0]) + enc_points(pts.drop_first())
    }
}

/// Encoding of one way: name, class, form, then its points behind their
/// count.
pub open spec fn enc_way(m: WayModel) -> Seq<u8> {
    enc_str(m.name) + seq![class_code(m.class)] + seq![form_code(m.form)] + enc_u64(
        m.way_points.len() as u64,
    ) + enc_points(m.way_points)
}

/// Encoding of a way sequence, in order.
pub open spec fn enc_ways(ws: Seq<WayModel>) -> Seq<u8>
    decreases ws.len(),
{
    if ws.len() == 0 {
        Seq::empty()
    } else {
        enc_way(ws[0]) + enc_ways(ws.drop_first())
    }
}

/// Encoding of one class's way list: its count, then the ways.
pub open spec fn enc_way_list(ws: Seq<WayModel>) -> Seq<u8> {
    enc_u64(ws.len() as u64) + enc_ways(ws)
}

/// Encoding of the whole cache: the scale divisor, then the six class
/// lists in a fixed order.
pub open spec fn enc_cache(m: ClassifiedWaysModel) -> Seq<u8> {
    enc_u64(RATIO_ADJUST as u64) + enc_way_list(m.minor) + enc_way_list(m.b_roads) + enc_way_list(
        m.a_roads,
    ) + enc_way_list(m.motorways) + enc_way_list(m.unclassified) + enc_way_list(m.unknown)
}

/// Decode one integer at `pos`, yielding the value and the next position.
pub open spec fn dec_u64(bytes: Seq<u8>, pos: int) -> Option<(u64, int)> {
    if 0 <= pos && pos + 8 <= bytes.len() {
        Some((spec_u64_from_le_bytes(bytes.subrange(pos, pos + 8)), pos + 8))
    } else {
        None
    }
}

/// Decode one signed coordinate at `pos`.
pub open spec fn dec_i64(bytes: Seq<u8>, pos: int) -> Option<(i64, int)> {
    match dec_u64(bytes, pos) {
        Some((x, p)) => Some((x as i64, p)),
        None => None,
    }
}

/// Decode one truth value at `pos`; any byte but zero or one is malformed.
pub open spec fn dec_bool(bytes: Seq<u8>, pos: int) -> Option<(bool, int)> {
    if 0 <= pos && pos + 1 <= bytes.len() {
        if bytes[pos] == 0 {
            Some((false, pos + 1))
        } else if bytes[pos] == 1 {
            Some((true, pos + 1))
        } else {
            None
        }
    } else {
        None
    }
}

/// Decode one string at `pos`: its byte length, then that many UTF-8
/// bytes.
pub open spec fn dec_str(bytes: Seq<u8>, pos: int) -> Option<(Seq<char>, int)> {
    match dec_u64(bytes, pos) {
        Some((len, p)) => {
            if p + len <= bytes.len() {
                let bs = bytes.subrange(p, p + len);
                if valid_utf8(bs) {
                    Some((decode_utf8(bs), p + len))
                } else {
                    None
                }
            } else {
                None
            }
        },
        None => None,
    }
}

/// Decode one way point at `pos`.
pub open spec fn dec_waypoint(bytes: Seq<u8>, pos: int) -> Option<(WayPoint, int)> {
    match dec_bool(bytes, pos) {
        Some((is_start, p1)) => match dec_i64(bytes, p1) {
            Some((x, p2)) => match dec_i64(bytes, p2) {
                Some((y, p3)) => Some((WayPoint { is_start, x, y }, p3)),
                None => None,
            },
            None => None,
        },
        None => None,
    }
}

/// Decode `count` way points starting at `pos`.
pub open spec fn dec_points(bytes: Seq<u8>, pos: int, count: int) -> Option<(Seq<WayPoint>, int)>
    decreases count,
{
    if count <= 0 {
        Some((Seq::empty(), pos))
    } else {
        match dec_waypoint(bytes, pos) {
            Some((p, p1)) => match dec_points(bytes, p1, count - 1) {
                Some((ps, p2)) => Some((seq![p] + ps, p2)),
                None => None,
            },
            None => None,
        }
    }
}

/// Decode one way at `pos`.
pub open spec fn dec_way(bytes: Seq<u8>, pos: int) -> Option<(WayModel, int)> {
    match dec_str(bytes, pos) {
        Some((name, p1)) => {
            if p1 + 2 <= bytes.len() {
                match (class_of_code(bytes[p1]), form_of_code(bytes[p1 + 1])) {
                    (Some(class), Some(form)) => match dec_u64(bytes, p1 + 2) {
                        Some((count, p2)) => match dec_points(bytes, p2, count as int) {
                            Some((pts, p3)) => Some(
                                (WayModel { name, class, form, way_points: pts }, p3),
                            ),
                            None => None,
                        },
                        None => None,
                    },
                    _ => None,
                }
            } else {
                None
            }
        },
        None => None,
    }
}

/// Decode `count` ways starting at `pos`.
pub open spec fn dec_ways(bytes: Seq<u8>, pos: int, count: int) -> Option<(Seq<WayModel>, int)>
    decreases count,
{
    if count <= 0 {
        Some((Seq::empty(), pos))
    } else {
        match dec_way(bytes, pos) {
            Some((w, p1)) => match dec_ways(bytes, p1, count - 1) {
                Some((ws, p2)) => Some((seq![w] + ws, p2)),
                None => None,
            },
            None => None,
        }
    }
}

/// Decode one class's way list at `pos`: its count, then the ways.
pub open spec fn dec_way_list(bytes: Seq<u8>, pos: int) -> Option<(Seq<WayModel>, int)> {
    match dec_u64(bytes, pos) {
        Some((count, p)) => dec_ways(bytes, p, count as int),
        None => None,
    }
}

/// Decode a whole cache: the scale divisor must match the one this build
/// writes, the six class lists follow, and nothing may trail them.
pub open spec fn dec_cache(bytes: Seq<u8>) -> Option<ClassifiedWaysModel> {
    match dec_u64(bytes, 0) {
        Some((scale, p0)) => {
            if scale != RATIO_ADJUST as u64 {
                None
            } else {
                match dec_way_list(bytes, p0) {
                    Some((minor, p1)) => match dec_way_list(bytes, p1) {
                        Some((b_roads, p2)) => match dec_way_list(bytes, p2) {
                            Some((a_roads, p3)) => match dec_way_list(bytes, p3) {
                                Some((motorways, p4)) => match dec_way_list(bytes, p4) {
                                    Some((unclassified, p5)) => match dec_way_list(bytes, p5) {
                                        Some((unknown, p6)) => {
                                            if p6 == bytes.len() {
                                                Some(
                                                    ClassifiedWaysModel {
                                                        minor,
                                                        b_roads,
                                                        a_roads,
                                                        motorways,
                                                        unclassified,
                                                        unknown,
                                                    },
                                                )
                                            } else {
                                                None
                                            }
                                        },
                                        None => None,
                                    },
                                    None => None,
                                },
                                None => None,
                            },
                            None => None,
                        },
                        None => None,
                    },
                    None => None,
                }
            }
        },
        None => None,
    }
}

/// What a way must satisfy for its length prefixes to be faithful: every
/// length fits the integer that carries it.
pub open spec fn way_wf_codec(m: WayModel) -> bool {
    &&& encode_utf8(m.name).len() <= u64::MAX
    &&& m.way_points.len() <= u64::MAX
}

/// Length bounds for a way list.
pub open spec fn ways_wf_codec(ws: Seq<WayModel>) -> bool {
    &&& ws.len() <= u64::MAX
    &&& forall|i: int| 0 <= i < ws.len() ==> way_wf_codec(#[trigger] ws[i])
}

/// Length bounds for a whole cache.
pub open spec fn cache_wf_codec(m: ClassifiedWaysModel) -> bool {
    &&& ways_wf_codec(m.minor)
    &&& ways_wf_codec(m.b_roads)
    &&& ways_wf_codec(m.a_roads)
    &&& ways_wf_codec(m.motorways)
    &&& ways_wf_codec(m.unclassified)
    &&& ways_wf_codec(m.unknown)
}

/// Decoding an encoded integer embedded in a larger buffer yields it back.
proof fn lemma_dec_enc_u64(pre: Seq<u8>, x: u64, rest: Seq<u8>)
    ensures
        dec_u64(pre + enc_u64(x) + rest, pre.len() as int) == Some(
            (x, pre.len() as int + enc_u64(x).len() as int),
        ),
        enc_u64(x).len() == 8,
{
    vstd::bytes::lemma_auto_spec_u64_to_from_le_bytes();
    let bytes = pre + enc_u64(x) + rest;
    assert(bytes.subrange(pre.len() as int, pre.len() + 8int) =~= enc_u64(x));
}

/// Decoding an encoded signed coordinate yields it back.
proof fn lemma_dec_enc_i64(pre: Seq<u8>, x: i64, rest: Seq<u8>)
    ensures
        dec_i64(pre + enc_i64(x) + rest, pre.len() as int) == Some(
            (x, pre.len() as int + enc_i64(x).len() as int),
        ),
        enc_i64(x).len() == 8,
{
    lemma_dec_enc_u64(pre, x as u64, rest);
    assert(((x as u64) as i64) == x) by (bit_vector);
}

/// Decoding an encoded truth value yields it back.
proof fn lemma_dec_enc_bool(pre: Seq<u8>, b: bool, rest: Seq<u8>)
    ensures
        dec_bool(pre + enc_bool(b) + rest, pre.len() as int) == Some((b, pre.len() as int + 1)),
        enc_bool(b).len() == 1,
{
    let bytes = pre + enc_bool(b) + rest;
    assert(bytes[pre.len() as int] == enc_bool(b)[0]);
}

/// Decoding an encoded string yields its characters back.
proof fn lemma_dec_enc_str(pre: Seq<u8>, s: Seq<char>, rest: Seq<u8>)
    requires
        encode_utf8(s).len() <= u64::MAX,
    ensures
        dec_str(pre + enc_str(s) + rest, pre.len() as int) == Some(
            (s, pre.len() as int + enc_str(s).len() as int),
        ),
{
    broadcast use vstd::utf8::encode_utf8_valid_utf8;
    broadcast use vstd::utf8::encode_utf8_decode_utf8;

    let eu = encode_utf8(s);
    let len_u = eu.len() as u64;
    let bytes = pre + enc_str(s) + rest;
    assert(bytes =~= pre + enc_u64(len_u) + (eu + rest));
    lemma_dec_enc_u64(pre, len_u, eu + rest);
    let p = pre.len() + 8;
    assert(bytes.subrange(p as int, p as int + eu.len() as int) =~= eu);
}

/// Decoding an encoded way point yields it back.
proof fn lemma_dec_enc_waypoint(pre: Seq<u8>, p: WayPoint, rest: Seq<u8>)
    ensures
        dec_waypoint(pre + enc_waypoint(p) + rest, pre.len() as int) == Some(
            (p, pre.len() as int + enc_waypoint(p).len() as int),
        ),
        enc_waypoint(p).len() == 17,
{
    let bytes = pre + enc_waypoint(p) + rest;
    assert(bytes =~= pre + enc_bool(p.is_start) + (enc_i64(p.x) + enc_i64(p.y) + rest));
    lemma_dec_enc_bool(pre, p.is_start, enc_i64(p.x) + enc_i64(p.y) + rest);
    let pre1 = pre + enc_bool(p.is_start);
    assert(bytes =~= pre1 + enc_i64(p.x) + (enc_i64(p.y) + rest));
    lemma_dec_enc_i64(pre1, p.x, enc_i64(p.y) + rest);
    let pre2 = pre1 + enc_i64(p.x);
    assert(bytes =~= pre2 + enc_i64(p.y) + rest);
    lemma_dec_enc_i64(pre2, p.y, rest);
}

/// Decoding an encoded point sequence yields it back.
proof fn lemma_dec_enc_points(pre: Seq<u8>, pts: Seq<WayPoint>, rest: Seq<u8>)
    ensures
        dec_points(pre + enc_points(pts) + rest, pre.len() as int, pts.len() as int) == Some(
            (pts, pre.len() as int + enc_points(pts).len() as int),
        ),
    decreases pts.len(),
{
    let bytes = pre + enc_points(pts) + rest;
    if pts.len() == 0 {
        assert(pts =~= Seq::<WayPoint>::empty());
    } else {
        let head = pts[0];
        let tail = pts.drop_first();
        assert(bytes =~= pre + enc_waypoint(head) + (enc_points(tail) + rest));
        lemma_dec_enc_waypoint(pre, head, enc_points(tail) + rest);
        let pre1 = pre + enc_waypoint(head);
        assert(bytes =~= pre1 + enc_points(tail) + rest);
        lemma_dec_enc_points(pre1, tail, rest);
        assert(seq![head] + tail =~= pts);
    }
}

/// Decoding an encoded way yields it back.
#[verifier::rlimit(100)]
#[verifier::spinoff_prover]
proof fn lemma_dec_enc_way(pre: Seq<u8>, m: WayModel, rest: Seq<u8>)
    requires
        way_wf_codec(m),
    ensures
        dec_way(pre + enc_way(m) + rest, pre.len() as int) == Some(
            (m, pre.len() as int + enc_way(m).len() as int),
        ),
{
    let bytes = pre + enc_way(m) + rest;
    let cb = seq![class_code(m.class)];
    let fb = seq![form_code(m.form)];
    let cnt = enc_u64(m.way_points.len() as u64);
    let pts = enc_points(m.way_points);
    assert(bytes =~= pre + enc_str(m.name) + (cb + fb + cnt + pts + rest));
    lemma_dec_enc_str(pre, m.name, cb + fb + cnt + pts + rest);
    let pre1 = pre + enc_str(m.name);
    assert(bytes[pre1.len() as int] == class_code(m.class));
    assert(bytes[pre1.len() + 1int] == form_code(m.form));
    assert(class_of_code(class_code(m.class)) == Some(m.class));
    assert(form_of_code(form_code(m.form)) == Some(m.form));
    let pre2 = pre1 + cb + fb;
    assert(bytes =~= pre2 + cnt + (pts + rest));
    lemma_dec_enc_u64(pre2, m.way_points.len() as u64, pts + rest);
    let pre3 = pre2 + cnt;
    assert(bytes =~= pre3 + pts + rest);
    lemma_dec_enc_points(pre3, m.way_points, rest);
}

/// Decoding an encoded way sequence yields it back.
proof fn lemma_dec_enc_ways(pre: Seq<u8>, ws: Seq<WayModel>, rest: Seq<u8>)
    requires
        forall|i: int| 0 <= i < ws.len() ==> way_wf_codec(#[trigger] ws[i]),
    ensures
        dec_ways(pre + enc_ways(ws) + rest, pre.len() as int, ws.len() as int) == Some(
            (ws, pre.len() as int + enc_ways(ws).len() as int),
        ),
    decreases ws.len(),
{
    let bytes = pre + enc_ways(ws) + rest;
    if ws.len() == 0 {
        assert(ws =~= Seq::<WayModel>::empty());
    } else {
        let head = ws[0];
        let tail = ws.drop_first();
        assert(bytes =~= pre + enc_way(head) + (enc_ways(tail) + rest));
        lemma_dec_enc_way(pre, head, enc_ways(tail) + rest);
        let pre1 = pre + enc_way(head);
        assert(bytes =~= pre1 + enc_ways(tail) + rest);
        lemma_dec_enc_ways(pre1, tail, rest);
        assert(seq![head] + tail =~= ws);
    }
}

/// Decoding an encoded way list yields it back.
proof fn lemma_dec_enc_way_list(pre: Seq<u8>, ws: Seq<WayModel>, rest: Seq<u8>)
    requires
        ways_wf_codec(ws),
    ensures
        dec_way_list(pre + enc_way_list(ws) + rest, pre.len() as int) == Some(
            (ws, pre.len() as int + enc_way_list(ws).len() as int),
        ),
{
    let bytes = pre + enc_way_list(ws) + rest;
    assert(bytes =~= pre + enc_u64(ws.len() as u64) + (enc_ways(ws) + rest));
    lemma_dec_enc_u64(pre, ws.len() as u64, enc_ways(ws) + rest);
    let pre1 = pre + enc_u64(ws.len() as u64);
    assert(bytes =~= pre1 + enc_ways(ws) + rest);
    lemma_dec_enc_ways(pre1, ws, rest);
}

/// Law: reading a written cache yields the written collection back, field
/// for field.
#[verifier::rlimit(100)]
#[verifier::spinoff_prover]
pub proof fn lemma_cache_round_trip(m: ClassifiedWaysModel)
    requires
        cache_wf_codec(m),
    ensures
        dec_cache(enc_cache(m)) == Some(m),
{
    let bytes = enc_cache(m);
    let e0 = enc_u64(RATIO_ADJUST as u64);
    let e1 = enc_way_list(m.minor);
    let e2 = enc_way_list(m.b_roads);
    let e3 = enc_way_list(m.a_roads);
    let e4 = enc_way_list(m.motorways);
    let e5 = enc_way_list(m.unclassified);
    let e6 = enc_way_list(m.unknown);
    assert(bytes =~= Seq::<u8>::empty() + e0 + (e1 + e2 + e3 + e4 + e5 + e6));
    lemma_dec_enc_u64(Seq::empty(), RATIO_ADJUST as u64, e1 + e2 + e3 + e4 + e5 + e6);
    let p0 = Seq::<u8>::empty() + e0;
    assert(bytes =~= p0 + e1 + (e2 + e3 + e4 + e5 + e6));
    lemma_dec_enc_way_list(p0, m.minor, e2 + e3 + e4 + e5 + e6);
    let p1 = p0 + e1;
    assert(bytes =~= p1 + e2 + (e3 + e4 + e5 + e6));
    lemma_dec_enc_way_list(p1, m.b_roads, e3 + e4 + e5 + e6);
    let p2 = p1 + e2;
    assert(bytes =~= p2 + e3 + (e4 + e5 + e6));
    lemma_dec_enc_way_list(p2, m.a_roads, e4 + e5 + e6);
    let p3 = p2 + e3;
    assert(bytes =~= p3 + e4 + (e5 + e6));
    lemma_dec_enc_way_list(p3, m.motorways, e5 + e6);
    let p4 = p3 + e4;
    assert(bytes =~= p4 + e5 + e6);
    lemma_dec_enc_way_list(p4, m.unclassified, e6);
    let p5 = p4 + e5;
    assert(bytes =~= p5 + e6 + Seq::<u8>::empty());
    lemma_dec_enc_way_list(p5, m.unknown, Seq::empty());
    assert(p5.len() + e6.len() == bytes.len());
}


/// Append every byte of a slice.
fn push_bytes(out: &mut Vec<u8>, s: &[u8])
    ensures
        final(out)@ == old(out)@ + s@,
{
    let n = s.len();
    let mut i: usize = 0;
    while i < n
        invariant
            n == s@.len(),
            i <= n,
            out@ == old(out)@ + s@.take(i as int),
        decreases n - i,
    {
        let b = *vstd::slice::slice_index_get(s, i);
        out.push(b);
        proof {
            assert(out@ =~= old(out)@ + s@.take(i + 1));
        }
        i += 1;
    }
    proof {
        assert(out@ =~= old(out)@ + s@);
    }
}

/// Append the encoding of one integer.
fn encode_u64(out: &mut Vec<u8>, x: u64)
    ensures
        final(out)@ == old(out)@ + enc_u64(x),
{
    let bs = u64_to_le_bytes(x);
    push_bytes(out, bs.as_slice());
}

/// Append the encoding of one signed coordinate.
fn encode_i64(out: &mut Vec<u8>, x: i64)
    ensures
        final(out)@ == old(out)@ + enc_i64(x),
{
    encode_u64(out, x as u64);
}

/// Append the encoding of one truth value.
fn encode_bool(out: &mut Vec<u8>, b: bool)
    ensures
        final(out)@ == old(out)@ + enc_bool(b),
{
    if b {
        out.push(1);
    } else {
        out.push(0);
    }
    proof {
        assert(out@ =~= old(out)@ + enc_bool(b));
    }
}

/// Append the encoding of one string.
fn encode_str(out: &mut Vec<u8>, s: &String)
    ensures
        final(out)@ == old(out)@ + enc_str(s@),
{
    let bs = s.as_str().as_bytes();
    proof {
        assert(bs@ == encode_utf8(s@));
    }
    encode_u64(out, bs.len() as u64);
    push_bytes(out, bs);
    proof {
        assert(out@ =~= old(out)@ + enc_str(s@));
    }
}

/// Append the encoding of one way point.
fn encode_waypoint(out: &mut Vec<u8>, p: WayPoint)
    ensures
        final(out)@ == old(out)@ + enc_waypoint(p),
{
    encode_bool(out, p.is_start);
    encode_i64(out, p.x);
    encode_i64(out, p.y);
    proof {
        assert(out@ =~= old(out)@ + enc_waypoint(p));
    }
}

/// Appending one point extends a point encoding at its end.
proof fn lemma_enc_points_push(pts: Seq<WayPoint>, p: WayPoint)
    ensures
        enc_points(pts.push(p)) == enc_points(pts) + enc_waypoint(p),
    decreases pts.len(),
{
    assert(pts.push(p)[0] == if pts.len() == 0 { p } else { pts[0] });
    assert(enc_points(pts.push(p)) == enc_waypoint(pts.push(p)[0]) + enc_points(
        pts.push(p).drop_first(),
    ));
    if pts.len() == 0 {
        assert(pts.push(p).drop_first() =~= Seq::<WayPoint>::empty());
        assert(enc_points(Seq::<WayPoint>::empty()) == Seq::<u8>::empty());
        assert(enc_points(pts.push(p)) =~= enc_points(pts) + enc_waypoint(p));
    } else {
        assert(pts.push(p).drop_first() =~= pts.drop_first().push(p));
        lemma_enc_points_push(pts.drop_first(), p);
        assert(enc_points(pts) == enc_waypoint(pts[0]) + enc_points(pts.drop_first()));
        assert(enc_points(pts.push(p)) =~= enc_points(pts) + enc_waypoint(p));
    }
}

/// Appending one way extends a way encoding at its end.
proof fn lemma_enc_ways_push(ws: Seq<WayModel>, w: WayModel)
    ensures
        enc_ways(ws.push(w)) == enc_ways(ws) + enc_way(w),
    decreases ws.len(),
{
    assert(ws.push(w)[0] == if ws.len() == 0 { w } else { ws[0] });
    assert(enc_ways(ws.push(w)) == enc_way(ws.push(w)[0]) + enc_ways(ws.push(w).drop_first()));
    if ws.len() == 0 {
        assert(ws.push(w).drop_first() =~= Seq::<WayModel>::empty());
        assert(enc_ways(Seq::<WayModel>::empty()) == Seq::<u8>::empty());
        assert(enc_ways(ws.push(w)) =~= enc_ways(ws) + enc_way(w));
    } else {
        assert(ws.push(w).drop_first() =~= ws.drop_first().push(w));
        lemma_enc_ways_push(ws.drop_first(), w);
        assert(enc_ways(ws) == enc_way(ws[0]) + enc_ways(ws.drop_first()));
        assert(enc_ways(ws.push(w)) =~= enc_ways(ws) + enc_way(w));
    }
}

/// Append the encoding of one way.
fn encode_way(out: &mut Vec<u8>, w: &Way)
    ensures
        final(out)@ == old(out)@ + enc_way(w@),
{
    encode_str(out, &w.name);
    let cb: u8 = match w.class {
        WayClass::Minor => 0,
        WayClass::BRoad => 1,
        WayClass::ARoad => 2,
        WayClass::Motorway => 3,
        WayClass::Unclassified => 4,
        WayClass::Unknown => 5,
    };
    out.push(cb);
    let fb: u8 = match w.form {
        WayForm::SingleCarriageway => 0,
        WayForm::DualCarriageway => 1,
        WayForm::CollapsedDualCarriageway => 2,
        WayForm::Roundabout => 3,
        WayForm::SlipRoad => 4,
        WayForm::TransitWay => 5,
    };
    out.push(fb);
    let n = w.way_points.len();
    encode_u64(out, n as u64);
    let ghost mid = out@;
    let mut i: usize = 0;
    while i < n
        invariant
            n == w.way_points@.len(),
            i <= n,
            out@ == mid + enc_points(w.way_points@.take(i as int)),
        decreases n - i,
    {
        encode_waypoint(out, w.way_points[i]);
        proof {
            assert(w.way_points@.take(i + 1) =~= w.way_points@.take(i as int).push(
                w.way_points@[i as int],
            ));
            lemma_enc_points_push(w.way_points@.take(i as int), w.way_points@[i as int]);
        }
        i += 1;
    }
    proof {
        assert(w.way_points@.take(n as int) =~= w.way_points@);
        assert(out@ =~= old(out)@ + enc_way(w@));
    }
}

/// Append the encoding of one class's way list.
fn encode_way_list(out: &mut Vec<u8>, ws: &Vec<Way>)
    ensures
        final(out)@ == old(out)@ + enc_way_list(ws@.map_values(|w: Way| w@)),
{
    let ghost vm = ws@.map_values(|w: Way| w@);
    let n = ws.len();
    encode_u64(out, n as u64);
    let ghost mid = out@;
    let mut i: usize = 0;
    while i < n
        invariant
            n == ws@.len(),
            vm == ws@.map_values(|w: Way| w@),
            i <= n,
            out@ == mid + enc_ways(vm.take(i as int)),
        decreases n - i,
    {
        encode_way(out, &ws[i]);
        proof {
            assert(vm.take(i + 1) =~= vm.take(i as int).push(vm[i as int]));
            lemma_enc_ways_push(vm.take(i as int), vm[i as int]);
            assert(vm[i as int] == ws@[i as int]@);
        }
        i += 1;
    }
    proof {
        assert(vm.take(n as int) =~= vm);
        assert(out@ =~= old(out)@ + enc_way_list(vm));
    }
}

/// Serialize the classified ways into the cache's binary form.
pub fn serialize_ways(m: &ClassifiedWays) -> (out: Vec<u8>)
    ensures
        out@ == enc_cache(m@),
{
    let mut out: Vec<u8> = Vec::new();
    encode_u64(&mut out, RATIO_ADJUST as u64);
    encode_way_list(&mut out, &m.minor);
    encode_way_list(&mut out, &m.b_roads);
    encode_way_list(&mut out, &m.a_roads);
    encode_way_list(&mut out, &m.motorways);
    encode_way_list(&mut out, &m.unclassified);
    encode_way_list(&mut out, &m.unknown);
    proof {
        assert(out@ =~= enc_cache(m@));
    }
    out
}


/// Relies on std's `String::from_utf8`: it succeeds exactly on valid UTF-8
/// and the returned string holds exactly the given bytes.
#[verifier::external_body]
fn string_from_utf8(v: Vec<u8>) -> (r: Option<String>)
    ensures
        match r {
            Some(s) => valid_utf8(v@) && encode_utf8(s@) == v@,
            None => !valid_utf8(v@),
        },
{
    match String::from_utf8(v) {
        Ok(s) => Some(s),
        Err(_) => None,
    }
}

/// Prepend already-decoded items to a decoder result.
spec fn compose<T>(pre: Seq<T>, r: Option<(Seq<T>, int)>) -> Option<(Seq<T>, int)> {
    match r {
        Some((ps, e)) => Some((pre + ps, e)),
        None => None,
    }
}

/// Read one integer of the cache.
fn read_u64(bytes: &Vec<u8>, pos: &mut usize) -> (r: Result<u64, GeoError>)
    requires
        *old(pos) <= bytes@.len(),
    ensures
        match r {
            Ok(x) => dec_u64(bytes@, *old(pos) as int) == Some((x, *final(pos) as int)) && *final(pos) <= bytes@.len(),
            Err(e) => dec_u64(bytes@, *old(pos) as int) is None && e == GeoError::SchemaMismatch
                && *final(pos) <= bytes@.len(),
        },
{
    if bytes.len() - *pos >= 8 {
        let s = slice_subrange(bytes.as_slice(), *pos, *pos + 8);
        let x = u64_from_le_bytes(s);
        *pos = *pos + 8;
        Ok(x)
    } else {
        Err(GeoError::SchemaMismatch)
    }
}

/// Read one signed coordinate of the cache.
fn read_i64(bytes: &Vec<u8>, pos: &mut usize) -> (r: Result<i64, GeoError>)
    requires
        *old(pos) <= bytes@.len(),
    ensures
        match r {
            Ok(x) => dec_i64(bytes@, *old(pos) as int) == Some((x, *final(pos) as int)) && *final(pos) <= bytes@.len(),
            Err(e) => dec_i64(bytes@, *old(pos) as int) is None && e == GeoError::SchemaMismatch
                && *final(pos) <= bytes@.len(),
        },
{
    match read_u64(bytes, pos) {
        Ok(x) => Ok(x as i64),
        Err(e) => Err(e),
    }
}

/// Read one truth value of the cache.
fn read_bool(bytes: &Vec<u8>, pos: &mut usize) -> (r: Result<bool, GeoError>)
    requires
        *old(pos) <= bytes@.len(),
    ensures
        match r {
            Ok(b) => dec_bool(bytes@, *old(pos) as int) == Some((b, *final(pos) as int)) && *final(pos) <= bytes@.len(),
            Err(e) => dec_bool(bytes@, *old(pos) as int) is None && e == GeoError::SchemaMismatch
                && *final(pos) <= bytes@.len(),
        },
{
    if bytes.len() - *pos >= 1 {
        let b = bytes[*pos];
        if b == 0 {
            *pos = *pos + 1;
            Ok(false)
        } else if b == 1 {
            *pos = *pos + 1;
            Ok(true)
        } else {
            Err(GeoError::SchemaMismatch)
        }
    } else {
        Err(GeoError::SchemaMismatch)
    }
}

/// Read one string of the cache.
fn read_str(bytes: &Vec<u8>, pos: &mut usize) -> (r: Result<String, GeoError>)
    requires
        *old(pos) <= bytes@.len(),
    ensures
        match r {
            Ok(s) => dec_str(bytes@, *old(pos) as int) == Some((s@, *final(pos) as int)) && *final(pos) <= bytes@.len(),
            Err(e) => dec_str(bytes@, *old(pos) as int) is None && e == GeoError::SchemaMismatch
                && *final(pos) <= bytes@.len(),
        },
{
    broadcast use vstd::utf8::encode_utf8_decode_utf8;

    let len_u = match read_u64(bytes, pos) {
        Ok(x) => x,
        Err(e) => {
            return Err(e);
        },
    };
    if ((bytes.len() - *pos) as u64) < len_u {
        return Err(GeoError::SchemaMismatch);
    }
    let l = len_u as usize;
    let sub = slice_to_vec(slice_subrange(bytes.as_slice(), *pos, *pos + l));
    match string_from_utf8(sub) {
        Some(s) => {
            proof {
                assert(decode_utf8(encode_utf8(s@)) == s@);
            }
            *pos = *pos + l;
            Ok(s)
        },
        None => Err(GeoError::SchemaMismatch),
    }
}

/// Read one way point of the cache.
fn read_waypoint(bytes: &Vec<u8>, pos: &mut usize) -> (r: Result<WayPoint, GeoError>)
    requires
        *old(pos) <= bytes@.len(),
    ensures
        match r {
            Ok(p) => dec_waypoint(bytes@, *old(pos) as int) == Some((p, *final(pos) as int))
                && *final(pos) <= bytes@.len(),
            Err(e) => dec_waypoint(bytes@, *old(pos) as int) is None && e
                == GeoError::SchemaMismatch && *final(pos) <= bytes@.len(),
        },
{
    let is_start = match read_bool(bytes, pos) {
        Ok(b) => b,
        Err(e) => {
            return Err(e);
        },
    };
    let x = match read_i64(bytes, pos) {
        Ok(v) => v,
        Err(e) => {
            return Err(e);
        },
    };
    let y = match read_i64(bytes, pos) {
        Ok(v) => v,
        Err(e) => {
            return Err(e);
        },
    };
    Ok(WayPoint { is_start, x, y })
}

/// Read `count` way points of the cache.
fn read_points(bytes: &Vec<u8>, pos: &mut usize, count: u64) -> (r: Result<Vec<WayPoint>, GeoError>)
    requires
        *old(pos) <= bytes@.len(),
    ensures
        match r {
            Ok(v) => dec_points(bytes@, *old(pos) as int, count as int) == Some(
                (v@, *final(pos) as int),
            ) && *final(pos) <= bytes@.len(),
            Err(e) => dec_points(bytes@, *old(pos) as int, count as int) is None && e
                == GeoError::SchemaMismatch && *final(pos) <= bytes@.len(),
        },
{
    let ghost p0 = *pos as int;
    let mut acc: Vec<WayPoint> = Vec::new();
    let mut i: u64 = 0;
    proof {
        if let Some((ps, e)) = dec_points(bytes@, p0, count as int) {
            assert(Seq::<WayPoint>::empty() + ps =~= ps);
        }
    }
    while i < count
        invariant
            p0 == *old(pos) as int,
            *pos <= bytes@.len(),
            i <= count,
            acc@.len() == i,
            dec_points(bytes@, p0, count as int) == compose(
                acc@,
                dec_points(bytes@, *pos as int, (count - i) as int),
            ),
        decreases count - i,
    {
        let ghost pos_before = *pos as int;
        let ghost acc_before = acc@;
        proof {
            assert(dec_points(bytes@, pos_before, (count - i) as int) == (
            match dec_waypoint(bytes@, pos_before) {
                Some((p, p1)) => match dec_points(bytes@, p1, (count - i - 1) as int) {
                    Some((ps, p2)) => Some((seq![p] + ps, p2)),
                    None => None,
                },
                None => None,
            }));
        }
        match read_waypoint(bytes, pos) {
            Ok(p) => {
                acc.push(p);
                proof {
                    if let Some((ps, e)) = dec_points(bytes@, *pos as int, (count - i - 1) as int) {
                        assert(acc_before + (seq![p] + ps) =~= acc_before.push(p) + ps);
                    }
                }
            },
            Err(e) => {
                proof {
                    assert(dec_points(bytes@, pos_before, (count - i) as int) is None);
                    assert(dec_points(bytes@, p0, count as int) is None);
                }
                return Err(e);
            },
        }
        i += 1;
    }
    proof {
        assert(acc@ + Seq::<WayPoint>::empty() =~= acc@);
    }
    Ok(acc)
}

/// Decode one class byte of the cache.
fn class_from_code(b: u8) -> (r: Option<WayClass>)
    ensures
        r == class_of_code(b),
{
    if b == 0 {
        Some(WayClass::Minor)
    } else if b == 1 {
        Some(WayClass::BRoad)
    } else if b == 2 {
        Some(WayClass::ARoad)
    } else if b == 3 {
        Some(WayClass::Motorway)
    } else if b == 4 {
        Some(WayClass::Unclassified)
    } else if b == 5 {
        Some(WayClass::Unknown)
    } else {
        None
    }
}

/// Decode one form byte of the cache.
fn form_from_code(b: u8) -> (r: Option<WayForm>)
    ensures
        r == form_of_code(b),
{
    if b == 0 {
        Some(WayForm::SingleCarriageway)
    } else if b == 1 {
        Some(WayForm::DualCarriageway)
    } else if b == 2 {
        Some(WayForm::CollapsedDualCarriageway)
    } else if b == 3 {
        Some(WayForm::Roundabout)
    } else if b == 4 {
        Some(WayForm::SlipRoad)
    } else if b == 5 {
        Some(WayForm::TransitWay)
    } else {
        None
    }
}

/// Read one way of the cache.
fn read_way(bytes: &Vec<u8>, pos: &mut usize) -> (r: Result<Way, GeoError>)
    requires
        *old(pos) <= bytes@.len(),
    ensures
        match r {
            Ok(w) => dec_way(bytes@, *old(pos) as int) == Some((w@, *final(pos) as int)) && *final(pos) <= bytes@.len(),
            Err(e) => dec_way(bytes@, *old(pos) as int) is None && e == GeoError::SchemaMismatch
                && *final(pos) <= bytes@.len(),
        },
{
    let name = match read_str(bytes, pos) {
        Ok(s) => s,
        Err(e) => {
            return Err(e);
        },
    };
    if bytes.len() - *pos < 2 {
        return Err(GeoError::SchemaMismatch);
    }
    let cb = bytes[*pos];
    let fb = bytes[*pos + 1];
    let class = match class_from_code(cb) {
        Some(c) => c,
        None => {
            return Err(GeoError::SchemaMismatch);
        },
    };
    let form = match form_from_code(fb) {
        Some(f) => f,
        None => {
            return Err(GeoError::SchemaMismatch);
        },
    };
    *pos = *pos + 2;
    let count = match read_u64(bytes, pos) {
        Ok(x) => x,
        Err(e) => {
            return Err(e);
        },
    };
    let way_points = match read_points(bytes, pos, count) {
        Ok(v) => v,
        Err(e) => {
            return Err(e);
        },
    };
    Ok(Way { name, class, form, way_points })
}

/// Read one class's way list of the cache.
fn read_way_list(bytes: &Vec<u8>, pos: &mut usize) -> (r: Result<Vec<Way>, GeoError>)
    requires
        *old(pos) <= bytes@.len(),
    ensures
        match r {
            Ok(v) => dec_way_list(bytes@, *old(pos) as int) == Some(
                (v@.map_values(|w: Way| w@), *final(pos) as int),
            ) && *final(pos) <= bytes@.len(),
            Err(e) => dec_way_list(bytes@, *old(pos) as int) is None && e
                == GeoError::SchemaMismatch && *final(pos) <= bytes@.len(),
        },
{
    let count = match read_u64(bytes, pos) {
        Ok(x) => x,
        Err(e) => {
            return Err(e);
        },
    };
    let ghost p0 = *pos as int;
    let mut acc: Vec<Way> = Vec::new();
    let mut i: u64 = 0;
    proof {
        if let Some((ws, e)) = dec_ways(bytes@, p0, count as int) {
            assert(Seq::<WayModel>::empty() + ws =~= ws);
        }
        assert(acc@.map_values(|w: Way| w@) =~= Seq::<WayModel>::empty());
    }
    while i < count
        invariant
            dec_u64(bytes@, *old(pos) as int) == Some((count, p0)),
            *pos <= bytes@.len(),
            i <= count,
            dec_ways(bytes@, p0, count as int) == compose(
                acc@.map_values(|w: Way| w@),
                dec_ways(bytes@, *pos as int, (count - i) as int),
            ),
        decreases count - i,
    {
        let ghost pos_before = *pos as int;
        let ghost acc_before = acc@.map_values(|w: Way| w@);
        proof {
            assert(dec_ways(bytes@, pos_before, (count - i) as int) == (
            match dec_way(bytes@, pos_before) {
                Some((w, p1)) => match dec_ways(bytes@, p1, (count - i - 1) as int) {
                    Some((ws, p2)) => Some((seq![w] + ws, p2)),
                    None => None,
                },
                None => None,
            }));
        }
        match read_way(bytes, pos) {
            Ok(w) => {
                let ghost wm = w@;
                acc.push(w);
                proof {
                    assert(acc@.map_values(|w: Way| w@) =~= acc_before.push(wm));
                    if let Some((ws, e)) = dec_ways(bytes@, *pos as int, (count - i - 1) as int) {
                        assert(acc_before + (seq![wm] + ws) =~= acc_before.push(wm) + ws);
                    }
                }
            },
            Err(e) => {
                proof {
                    assert(dec_ways(bytes@, pos_before, (count - i) as int) is None);
                    assert(dec_ways(bytes@, p0, count as int) is None);
                }
                return Err(e);
            },
        }
        i += 1;
    }
    proof {
        assert(acc@.map_values(|w: Way| w@) + Seq::<WayModel>::empty() =~= acc@.map_values(
            |w: Way| w@,
        ));
    }
    Ok(acc)
}

/// Deserialize a cache buffer back into the classified ways, rejecting a
/// mismatched scale, any malformed content, and trailing bytes.
pub fn deserialize_ways(bytes: &Vec<u8>) -> (r: Result<ClassifiedWays, GeoError>)
    ensures
        match r {
            Ok(c) => dec_cache(bytes@) == Some(c@),
            Err(e) => dec_cache(bytes@) is None && e == GeoError::SchemaMismatch,
        },
{
    let mut pos: usize = 0;
    let scale = match read_u64(bytes, &mut pos) {
        Ok(x) => x,
        Err(e) => {
            return Err(e);
        },
    };
    if scale != RATIO_ADJUST as u64 {
        return Err(GeoError::SchemaMismatch);
    }
    let minor = match read_way_list(bytes, &mut pos) {
        Ok(v) => v,
        Err(e) => {
            return Err(e);
        },
    };
    let b_roads = match read_way_list(bytes, &mut pos) {
        Ok(v) => v,
        Err(e) => {
            return Err(e);
        },
    };
    let a_roads = match read_way_list(bytes, &mut pos) {
        Ok(v) => v,
        Err(e) => {
            return Err(e);
        },
    };
    let motorways = match read_way_list(bytes, &mut pos) {
        Ok(v) => v,
        Err(e) => {
            return Err(e);
        },
    };
    let unclassified = match read_way_list(bytes, &mut pos) {
        Ok(v) => v,
        Err(e) => {
            return Err(e);
        },
    };
    let unknown = match read_way_list(bytes, &mut pos) {
        Ok(v) => v,
        Err(e) => {
            return Err(e);
        },
    };
    if pos != bytes.len() {
        return Err(GeoError::SchemaMismatch);
    }
    Ok(ClassifiedWays { minor, b_roads, a_roads, motorways, unclassified, unknown })
}


/// Encoding of an optional region identifier: a presence byte, then the
/// value if present.
pub open spec fn enc_region(o: Option<i64>) -> Seq<u8> {
    match o {
        None => seq![0u8],
        Some(v) => seq![1u8] + enc_i64(v),
    }
}

/// Encoding of one settlement point.
pub open spec fn enc_location(m: LocationModel) -> Seq<u8> {
    enc_str(m.name) + enc_i64(m.x) + enc_i64(m.y) + enc_i64(m.population) + enc_region(m.region_id)
}

/// Encoding of a settlement sequence, in order.
pub open spec fn enc_locations(ls: Seq<LocationModel>) -> Seq<u8>
    decreases ls.len(),
{
    if ls.len() == 0 {
        Seq::empty()
    } else {
        enc_location(ls[0]) + enc_locations(ls.drop_first())
    }
}

/// Encoding of the settlements cache: the scale divisor, the count, then
/// the settlements.
pub open spec fn enc_cities(ls: Seq<LocationModel>) -> Seq<u8> {
    enc_u64(RATIO_ADJUST as u64) + enc_u64(ls.len() as u64) + enc_locations(ls)
}

/// Decode an optional region identifier at `pos`.
pub open spec fn dec_region(bytes: Seq<u8>, pos: int) -> Option<(Option<i64>, int)> {
    if 0 <= pos && pos + 1 <= bytes.len() {
        if bytes[pos] == 0 {
            Some((None, pos + 1))
        } else if bytes[pos] == 1 {
            match dec_i64(bytes, pos + 1) {
                Some((v, p)) => Some((Some(v), p)),
                None => None,
            }
        } else {
            None
        }
    } else {
        None
    }
}

/// Decode one settlement point at `pos`.
pub open spec fn dec_location(bytes: Seq<u8>, pos: int) -> Option<(LocationModel, int)> {
    match dec_str(bytes, pos) {
        Some((name, p1)) => match dec_i64(bytes, p1) {
            Some((x, p2)) => match dec_i64(bytes, p2) {
                Some((y, p3)) => match dec_i64(bytes, p3) {
                    Some((population, p4)) => match dec_region(bytes, p4) {
                        Some((region_id, p5)) => Some(
                            (LocationModel { name, x, y, population, region_id }, p5),
                        ),
                        None => None,
                    },
                    None => None,
                },
                None => None,
            },
            None => None,
        },
        None => None,
    }
}

/// Decode `count` settlement points starting at `pos`.
pub open spec fn dec_locations(bytes: Seq<u8>, pos: int, count: int) -> Option<
    (Seq<LocationModel>, int),
>
    decreases count,
{
    if count <= 0 {
        Some((Seq::empty(), pos))
    } else {
        match dec_location(bytes, pos) {
            Some((l, p1)) => match dec_locations(bytes, p1, count - 1) {
                Some((ls, p2)) => Some((seq![l] + ls, p2)),
                None => None,
            },
            None => None,
        }
    }
}

/// Decode a whole settlements cache, rejecting a mismatched scale and any
/// trailing bytes.
pub open spec fn dec_cities(bytes: Seq<u8>) -> Option<Seq<LocationModel>> {
    match dec_u64(bytes, 0) {
        Some((scale, p0)) => {
            if scale != RATIO_ADJUST as u64 {
                None
            } else {
                match dec_u64(bytes, p0) {
                    Some((count, p1)) => match dec_locations(bytes, p1, count as int) {
                        Some((ls, p2)) => {
                            if p2 == bytes.len() {
                                Some(ls)
                            } else {
                                None
                            }
                        },
                        None => None,
                    },
                    None => None,
                }
            }
        },
        None => None,
    }
}

/// Length bounds a settlement list needs to round-trip.
pub open spec fn cities_wf_codec(ls: Seq<LocationModel>) -> bool {
    &&& ls.len() <= u64::MAX
    &&& forall|i: int| 0 <= i < ls.len() ==> encode_utf8((#[trigger] ls[i]).name).len() <= u64::MAX
}

/// Decoding an encoded region identifier yields it back.
proof fn lemma_dec_enc_region(pre: Seq<u8>, o: Option<i64>, rest: Seq<u8>)
    ensures
        dec_region(pre + enc_region(o) + rest, pre.len() as int) == Some(
            (o, pre.len() as int + enc_region(o).len() as int),
        ),
{
    let bytes = pre + enc_region(o) + rest;
    match o {
        None => {
            assert(bytes[pre.len() as int] == 0u8);
        },
        Some(v) => {
            assert(bytes[pre.len() as int] == 1u8);
            let pre1 = pre + seq![1u8];
            assert(bytes =~= pre1 + enc_i64(v) + rest);
            lemma_dec_enc_i64(pre1, v, rest);
        },
    }
}

/// Decoding an encoded settlement yields it back.
proof fn lemma_dec_enc_location(pre: Seq<u8>, m: LocationModel, rest: Seq<u8>)
    requires
        encode_utf8(m.name).len() <= u64::MAX,
    ensures
        dec_location(pre + enc_location(m) + rest, pre.len() as int) == Some(
            (m, pre.len() as int + enc_location(m).len() as int),
        ),
{
    let bytes = pre + enc_location(m) + rest;
    let ex = enc_i64(m.x);
    let ey = enc_i64(m.y);
    let ep = enc_i64(m.population);
    let er = enc_region(m.region_id);
    assert(bytes =~= pre + enc_str(m.name) + (ex + ey + ep + er + rest));
    lemma_dec_enc_str(pre, m.name, ex + ey + ep + er + rest);
    let pre1 = pre + enc_str(m.name);
    assert(bytes =~= pre1 + ex + (ey + ep + er + rest));
    lemma_dec_enc_i64(pre1, m.x, ey + ep + er + rest);
    let pre2 = pre1 + ex;
    assert(bytes =~= pre2 + ey + (ep + er + rest));
    lemma_dec_enc_i64(pre2, m.y, ep + er + rest);
    let pre3 = pre2 + ey;
    assert(bytes =~= pre3 + ep + (er + rest));
    lemma_dec_enc_i64(pre3, m.population, er + rest);
    let pre4 = pre3 + ep;
    assert(bytes =~= pre4 + er + rest);
    lemma_dec_enc_region(pre4, m.region_id, rest);
}

/// Decoding an encoded settlement sequence yields it back.
proof fn lemma_dec_enc_locations(pre: Seq<u8>, ls: Seq<LocationModel>, rest: Seq<u8>)
    requires
        forall|i: int| 0 <= i < ls.len() ==> encode_utf8((#[trigger] ls[i]).name).len() <= u64::MAX,
    ensures
        dec_locations(pre + enc_locations(ls) + rest, pre.len() as int, ls.len() as int) == Some(
            (ls, pre.len() as int + enc_locations(ls).len() as int),
        ),
    decreases ls.len(),
{
    let bytes = pre + enc_locations(ls) + rest;
    if ls.len() == 0 {
        assert(ls =~= Seq::<LocationModel>::empty());
    } else {
        let head = ls[0];
        let tail = ls.drop_first();
        assert(bytes =~= pre + enc_location(head) + (enc_locations(tail) + rest));
        lemma_dec_enc_location(pre, head, enc_locations(tail) + rest);
        let pre1 = pre + enc_location(head);
        assert(bytes =~= pre1 + enc_locations(tail) + rest);
        lemma_dec_enc_locations(pre1, tail, rest);
        assert(seq![head] + tail =~= ls);
    }
}

/// Law: reading a written settlements cache yields the settlements back.
pub proof fn lemma_cities_round_trip(ls: Seq<LocationModel>)
    requires
        cities_wf_codec(ls),
    ensures
        dec_cities(enc_cities(ls)) == Some(ls),
{
    let bytes = enc_cities(ls);
    let e0 = enc_u64(RATIO_ADJUST as u64);
    let e1 = enc_u64(ls.len() as u64);
    let e2 = enc_locations(ls);
    assert(bytes =~= Seq::<u8>::empty() + e0 + (e1 + e2));
    lemma_dec_enc_u64(Seq::empty(), RATIO_ADJUST as u64, e1 + e2);
    let p0 = Seq::<u8>::empty() + e0;
    assert(bytes =~= p0 + e1 + e2);
    lemma_dec_enc_u64(p0, ls.len() as u64, e2);
    let p1 = p0 + e1;
    assert(bytes =~= p1 + e2 + Seq::<u8>::empty());
    lemma_dec_enc_locations(p1, ls, Seq::empty());
    assert(p1.len() + e2.len() == bytes.len());
}

/// Append the encoding of one settlement.
fn encode_location(out: &mut Vec<u8>, l: &Location)
    ensures
        final(out)@ == old(out)@ + enc_location(l@),
{
    encode_str(out, &l.name);
    encode_i64(out, l.x);
    encode_i64(out, l.y);
    encode_i64(out, l.population);
    match l.region_id {
        None => out.push(0),
        Some(v) => {
            out.push(1);
            encode_i64(out, v);
        },
    }
    proof {
        assert(out@ =~= old(out)@ + enc_location(l@));
    }
}

/// Appending one settlement extends a settlement encoding at its end.
proof fn lemma_enc_locations_push(ls: Seq<LocationModel>, l: LocationModel)
    ensures
        enc_locations(ls.push(l)) == enc_locations(ls) + enc_location(l),
    decreases ls.len(),
{
    assert(ls.push(l)[0] == if ls.len() == 0 {
        l
    } else {
        ls[0]
    });
    assert(enc_locations(ls.push(l)) == enc_location(ls.push(l)[0]) + enc_locations(
        ls.push(l).drop_first(),
    ));
    if ls.len() == 0 {
        assert(ls.push(l).drop_first() =~= Seq::<LocationModel>::empty());
        assert(enc_locations(Seq::<LocationModel>::empty()) == Seq::<u8>::empty());
        assert(enc_locations(ls.push(l)) =~= enc_locations(ls) + enc_location(l));
    } else {
        assert(ls.push(l).drop_first() =~= ls.drop_first().push(l));
        lemma_enc_locations_push(ls.drop_first(), l);
        assert(enc_locations(ls) == enc_location(ls[0]) + enc_locations(ls.drop_first()));
        assert(enc_locations(ls.push(l)) =~= enc_locations(ls) + enc_location(l));
    }
}

/// Serialize the settlement points into their cache form.
pub fn serialize_cities(locations: &Vec<Location>) -> (out: Vec<u8>)
    ensures
        out@ == enc_cities(locations@.map_values(|l: Location| l@)),
{
    let ghost vm = locations@.map_values(|l: Location| l@);
    let mut out: Vec<u8> = Vec::new();
    encode_u64(&mut out, RATIO_ADJUST as u64);
    let n = locations.len();
    encode_u64(&mut out, n as u64);
    let ghost mid = out@;
    let mut i: usize = 0;
    while i < n
        invariant
            n == locations@.len(),
            vm == locations@.map_values(|l: Location| l@),
            i <= n,
            out@ == mid + enc_locations(vm.take(i as int)),
        decreases n - i,
    {
        encode_location(&mut out, &locations[i]);
        proof {
            assert(vm.take(i + 1) =~= vm.take(i as int).push(vm[i as int]));
            lemma_enc_locations_push(vm.take(i as int), vm[i as int]);
            assert(vm[i as int] == locations@[i as int]@);
        }
        i += 1;
    }
    proof {
        assert(vm.take(n as int) =~= vm);
        assert(out@ =~= enc_cities(vm));
    }
    out
}

/// Read one settlement of the cache.
fn read_location(bytes: &Vec<u8>, pos: &mut usize) -> (r: Result<Location, GeoError>)
    requires
        *old(pos) <= bytes@.len(),
    ensures
        match r {
            Ok(l) => dec_location(bytes@, *old(pos) as int) == Some((l@, *final(pos) as int))
                && *final(pos) <= bytes@.len(),
            Err(e) => dec_location(bytes@, *old(pos) as int) is None && e
                == GeoError::SchemaMismatch && *final(pos) <= bytes@.len(),
        },
{
    let name = match read_str(bytes, pos) {
        Ok(s) => s,
        Err(e) => {
            return Err(e);
        },
    };
    let x = match read_i64(bytes, pos) {
        Ok(v) => v,
        Err(e) => {
            return Err(e);
        },
    };
    let y = match read_i64(bytes, pos) {
        Ok(v) => v,
        Err(e) => {
            return Err(e);
        },
    };
    let population = match read_i64(bytes, pos) {
        Ok(v) => v,
        Err(e) => {
            return Err(e);
        },
    };
    if bytes.len() - *pos < 1 {
        return Err(GeoError::SchemaMismatch);
    }
    let tag = bytes[*pos];
    if tag == 0 {
        *pos = *pos + 1;
        Ok(Location { name, x, y, population, region_id: None })
    } else if tag == 1 {
        *pos = *pos + 1;
        let v = match read_i64(bytes, pos) {
            Ok(v) => v,
            Err(e) => {
                return Err(e);
            },
        };
        Ok(Location { name, x, y, population, region_id: Some(v) })
    } else {
        Err(GeoError::SchemaMismatch)
    }
}

/// Deserialize a settlements cache, rejecting a mismatched scale, any
/// malformed content, and trailing bytes.
pub fn deserialize_cities(bytes: &Vec<u8>) -> (r: Result<Vec<Location>, GeoError>)
    ensures
        match r {
            Ok(ls) => dec_cities(bytes@) == Some(ls@.map_values(|l: Location| l@)),
            Err(e) => dec_cities(bytes@) is None && e == GeoError::SchemaMismatch,
        },
{
    let mut pos: usize = 0;
    let scale = match read_u64(bytes, &mut pos) {
        Ok(x) => x,
        Err(e) => {
            return Err(e);
        },
    };
    if scale != RATIO_ADJUST as u64 {
        return Err(GeoError::SchemaMismatch);
    }
    let count = match read_u64(bytes, &mut pos) {
        Ok(x) => x,
        Err(e) => {
            return Err(e);
        },
    };
    let ghost p0 = pos as int;
    let mut acc: Vec<Location> = Vec::new();
    let mut i: u64 = 0;
    proof {
        if let Some((ls, e)) = dec_locations(bytes@, p0, count as int) {
            assert(Seq::<LocationModel>::empty() + ls =~= ls);
        }
        assert(acc@.map_values(|l: Location| l@) =~= Seq::<LocationModel>::empty());
    }
    while i < count
        invariant
            dec_u64(bytes@, 8) == Some((count, p0)),
            pos <= bytes@.len(),
            i <= count,
            dec_locations(bytes@, p0, count as int) == compose(
                acc@.map_values(|l: Location| l@),
                dec_locations(bytes@, pos as int, (count - i) as int),
            ),
        decreases count - i,
    {
        let ghost pos_before = pos as int;
        let ghost acc_before = acc@.map_values(|l: Location| l@);
        proof {
            assert(dec_locations(bytes@, pos_before, (count - i) as int) == (
            match dec_location(bytes@, pos_before) {
                Some((l, p1)) => match dec_locations(bytes@, p1, (count - i - 1) as int) {
                    Some((ls, p2)) => Some((seq![l] + ls, p2)),
                    None => None,
                },
                None => None,
            }));
        }
        match read_location(bytes, &mut pos) {
            Ok(l) => {
                let ghost lm = l@;
                acc.push(l);
                proof {
                    assert(acc@.map_values(|l: Location| l@) =~= acc_before.push(lm));
                    if let Some((ls, e)) = dec_locations(
                        bytes@,
                        pos as int,
                        (count - i - 1) as int,
                    ) {
                        assert(acc_before + (seq![lm] + ls) =~= acc_before.push(lm) + ls);
                    }
                }
            },
            Err(e) => {
                proof {
                    assert(dec_locations(bytes@, pos_before, (count - i) as int) is None);
                    assert(dec_locations(bytes@, p0, count as int) is None);
                }
                return Err(e);
            },
        }
        i += 1;
    }
    proof {
        assert(acc@.map_values(|l: Location| l@) + Seq::<LocationModel>::empty() =~= acc@.map_values(
            |l: Location| l@,
        ));
    }
    if pos != bytes.len() {
        return Err(GeoError::SchemaMismatch);
    }
    Ok(acc)
}


/// Encoding of one boundary polyline: its point count, then the points.
pub open spec fn enc_line(pts: Seq<WayPoint>) -> Seq<u8> {
    enc_u64(pts.len() as u64) + enc_points(pts)
}

/// Encoding of a boundary polyline sequence, in order.
pub open spec fn enc_lines(lines: Seq<Seq<WayPoint>>) -> Seq<u8>
    decreases lines.len(),
{
    if lines.len() == 0 {
        Seq::empty()
    } else {
        enc_line(lines[0]) + enc_lines(lines.drop_first())
    }
}

/// Encoding of the boundaries cache: the scale divisor, the line count,
/// then the lines.
pub open spec fn enc_boundaries(lines: Seq<Seq<WayPoint>>) -> Seq<u8> {
    enc_u64(RATIO_ADJUST as u64) + enc_u64(lines.len() as u64) + enc_lines(lines)
}

/// Decode one boundary polyline at `pos`.
pub open spec fn dec_line(bytes: Seq<u8>, pos: int) -> Option<(Seq<WayPoint>, int)> {
    match dec_u64(bytes, pos) {
        Some((count, p)) => dec_points(bytes, p, count as int),
        None => None,
    }
}

/// Decode `count` boundary polylines starting at `pos`.
pub open spec fn dec_lines(bytes: Seq<u8>, pos: int, count: int) -> Option<
    (Seq<Seq<WayPoint>>, int),
>
    decreases count,
{
    if count <= 0 {
        Some((Seq::empty(), pos))
    } else {
        match dec_line(bytes, pos) {
            Some((l, p1)) => match dec_lines(bytes, p1, count - 1) {
                Some((ls, p2)) => Some((seq![l] + ls, p2)),
                None => None,
            },
            None => None,
        }
    }
}

/// Decode a whole boundaries cache, rejecting a mismatched scale and any
/// trailing bytes.
pub open spec fn dec_boundaries(bytes: Seq<u8>) -> Option<Seq<Seq<WayPoint>>> {
    match dec_u64(bytes, 0) {
        Some((scale, p0)) => {
            if scale != RATIO_ADJUST as u64 {
                None
            } else {
                match dec_u64(bytes, p0) {
                    Some((count, p1)) => match dec_lines(bytes, p1, count as int) {
                        Some((ls, p2)) => {
                            if p2 == bytes.len() {
                                Some(ls)
                            } else {
                                None
                            }
                        },
                        None => None,
                    },
                    None => None,
                }
            }
        },
        None => None,
    }
}

/// Length bounds a boundary list needs to round-trip.
pub open spec fn boundaries_wf_codec(lines: Seq<Seq<WayPoint>>) -> bool {
    &&& lines.len() <= u64::MAX
    &&& forall|i: int| 0 <= i < lines.len() ==> (#[trigger] lines[i]).len() <= u64::MAX
}

/// Decoding an encoded boundary polyline yields it back.
proof fn lemma_dec_enc_line(pre: Seq<u8>, pts: Seq<WayPoint>, rest: Seq<u8>)
    requires
        pts.len() <= u64::MAX,
    ensures
        dec_line(pre + enc_line(pts) + rest, pre.len() as int) == Some(
            (pts, pre.len() as int + enc_line(pts).len() as int),
        ),
{
    let bytes = pre + enc_line(pts) + rest;
    assert(bytes =~= pre + enc_u64(pts.len() as u64) + (enc_points(pts) + rest));
    lemma_dec_enc_u64(pre, pts.len() as u64, enc_points(pts) + rest);
    let pre1 = pre + enc_u64(pts.len() as u64);
    assert(bytes =~= pre1 + enc_points(pts) + rest);
    lemma_dec_enc_points(pre1, pts, rest);
}

/// Decoding an encoded boundary sequence yields it back.
proof fn lemma_dec_enc_lines(pre: Seq<u8>, lines: Seq<Seq<WayPoint>>, rest: Seq<u8>)
    requires
        forall|i: int| 0 <= i < lines.len() ==> (#[trigger] lines[i]).len() <= u64::MAX,
    ensures
        dec_lines(pre + enc_lines(lines) + rest, pre.len() as int, lines.len() as int) == Some(
            (lines, pre.len() as int + enc_lines(lines).len() as int),
        ),
    decreases lines.len(),
{
    let bytes = pre + enc_lines(lines) + rest;
    if lines.len() == 0 {
        assert(lines =~= Seq::<Seq<WayPoint>>::empty());
    } else {
        let head = lines[0];
        let tail = lines.drop_first();
        assert(bytes =~= pre + enc_line(head) + (enc_lines(tail) + rest));
        lemma_dec_enc_line(pre, head, enc_lines(tail) + rest);
        let pre1 = pre + enc_line(head);
        assert(bytes =~= pre1 + enc_lines(tail) + rest);
        lemma_dec_enc_lines(pre1, tail, rest);
        assert(seq![head] + tail =~= lines);
    }
}

/// Law: reading a written boundaries cache yields the boundary lines back.
pub proof fn lemma_boundaries_round_trip(lines: Seq<Seq<WayPoint>>)
    requires
        boundaries_wf_codec(lines),
    ensures
        dec_boundaries(enc_boundaries(lines)) == Some(lines),
{
    let bytes = enc_boundaries(lines);
    let e0 = enc_u64(RATIO_ADJUST as u64);
    let e1 = enc_u64(lines.len() as u64);
    let e2 = enc_lines(lines);
    assert(bytes =~= Seq::<u8>::empty() + e0 + (e1 + e2));
    lemma_dec_enc_u64(Seq::empty(), RATIO_ADJUST as u64, e1 + e2);
    let p0 = Seq::<u8>::empty() + e0;
    assert(bytes =~= p0 + e1 + e2);
    lemma_dec_enc_u64(p0, lines.len() as u64, e2);
    let p1 = p0 + e1;
    assert(bytes =~= p1 + e2 + Seq::<u8>::empty());
    lemma_dec_enc_lines(p1, lines, Seq::empty());
    assert(p1.len() + e2.len() == bytes.len());
}

/// Appending one polyline extends a boundary encoding at its end.
proof fn lemma_enc_lines_push(lines: Seq<Seq<WayPoint>>, l: Seq<WayPoint>)
    ensures
        enc_lines(lines.push(l)) == enc_lines(lines) + enc_line(l),
    decreases lines.len(),
{
    assert(lines.push(l)[0] == if lines.len() == 0 {
        l
    } else {
        lines[0]
    });
    assert(enc_lines(lines.push(l)) == enc_line(lines.push(l)[0]) + enc_lines(
        lines.push(l).drop_first(),
    ));
    if lines.len() == 0 {
        assert(lines.push(l).drop_first() =~= Seq::<Seq<WayPoint>>::empty());
        assert(enc_lines(Seq::<Seq<WayPoint>>::empty()) == Seq::<u8>::empty());
        assert(enc_lines(lines.push(l)) =~= enc_lines(lines) + enc_line(l));
    } else {
        assert(lines.push(l).drop_first() =~= lines.drop_first().push(l));
        lemma_enc_lines_push(lines.drop_first(), l);
        assert(enc_lines(lines) == enc_line(lines[0]) + enc_lines(lines.drop_first()));
        assert(enc_lines(lines.push(l)) =~= enc_lines(lines) + enc_line(l));
    }
}

/// Serialize the boundary polylines into their cache form.
pub fn serialize_boundaries(lines: &Vec<Vec<WayPoint>>) -> (out: Vec<u8>)
    ensures
        out@ == enc_boundaries(lines@.map_values(|l: Vec<WayPoint>| l@)),
{
    let ghost vm = lines@.map_values(|l: Vec<WayPoint>| l@);
    let mut out: Vec<u8> = Vec::new();
    encode_u64(&mut out, RATIO_ADJUST as u64);
    let n = lines.len();
    encode_u64(&mut out, n as u64);
    let ghost mid = out@;
    let mut i: usize = 0;
    while i < n
        invariant
            n == lines@.len(),
            vm == lines@.map_values(|l: Vec<WayPoint>| l@),
            i <= n,
            out@ == mid + enc_lines(vm.take(i as int)),
        decreases n - i,
    {
        let line = &lines[i];
        let m = line.len();
        encode_u64(&mut out, m as u64);
        let ghost mid2 = out@;
        let mut j: usize = 0;
        while j < m
            invariant
                m == line@.len(),
                line@ == vm[i as int],
                i < n,
                vm == lines@.map_values(|l: Vec<WayPoint>| l@),
                j <= m,
                out@ == mid2 + enc_points(line@.take(j as int)),
            decreases m - j,
        {
            encode_waypoint(&mut out, line[j]);
            proof {
                assert(line@.take(j + 1) =~= line@.take(j as int).push(line@[j as int]));
                lemma_enc_points_push(line@.take(j as int), line@[j as int]);
            }
            j += 1;
        }
        proof {
            assert(line@.take(m as int) =~= line@);
            assert(vm.take(i + 1) =~= vm.take(i as int).push(vm[i as int]));
            lemma_enc_lines_push(vm.take(i as int), vm[i as int]);
            assert(out@ =~= mid + enc_lines(vm.take(i + 1)));
        }
        i += 1;
    }
    proof {
        assert(vm.take(n as int) =~= vm);
        assert(out@ =~= enc_boundaries(vm));
    }
    out
}

/// Read one boundary polyline of the cache.
fn read_line(bytes: &Vec<u8>, pos: &mut usize) -> (r: Result<Vec<WayPoint>, GeoError>)
    requires
        *old(pos) <= bytes@.len(),
    ensures
        match r {
            Ok(l) => dec_line(bytes@, *old(pos) as int) == Some((l@, *final(pos) as int)) && *final(pos)
                <= bytes@.len(),
            Err(e) => dec_line(bytes@, *old(pos) as int) is None && e == GeoError::SchemaMismatch
                && *final(pos) <= bytes@.len(),
        },
{
    let count = match read_u64(bytes, pos) {
        Ok(x) => x,
        Err(e) => {
            return Err(e);
        },
    };
    read_points(bytes, pos, count)
}

/// Deserialize a boundaries cache, rejecting a mismatched scale, any
/// malformed content, and trailing bytes.
pub fn deserialize_boundaries(bytes: &Vec<u8>) -> (r: Result<Vec<Vec<WayPoint>>, GeoError>)
    ensures
        match r {
            Ok(ls) => dec_boundaries(bytes@) == Some(ls@.map_values(|l: Vec<WayPoint>| l@)),
            Err(e) => dec_boundaries(bytes@) is None && e == GeoError::SchemaMismatch,
        },
{
    let mut pos: usize = 0;
    let scale = match read_u64(bytes, &mut pos) {
        Ok(x) => x,
        Err(e) => {
            return Err(e);
        },
    };
    if scale != RATIO_ADJUST as u64 {
        return Err(GeoError::SchemaMismatch);
    }
    let count = match read_u64(bytes, &mut pos) {
        Ok(x) => x,
        Err(e) => {
            return Err(e);
        },
    };
    let ghost p0 = pos as int;
    let mut acc: Vec<Vec<WayPoint>> = Vec::new();
    let mut i: u64 = 0;
    proof {
        if let Some((ls, e)) = dec_lines(bytes@, p0, count as int) {
            assert(Seq::<Seq<WayPoint>>::empty() + ls =~= ls);
        }
        assert(acc@.map_values(|l: Vec<WayPoint>| l@) =~= Seq::<Seq<WayPoint>>::empty());
    }
    while i < count
        invariant
            dec_u64(bytes@, 8) == Some((count, p0)),
            pos <= bytes@.len(),
            i <= count,
            dec_lines(bytes@, p0, count as int) == compose(
                acc@.map_values(|l: Vec<WayPoint>| l@),
                dec_lines(bytes@, pos as int, (count - i) as int),
            ),
        decreases count - i,
    {
        let ghost pos_before = pos as int;
        let ghost acc_before = acc@.map_values(|l: Vec<WayPoint>| l@);
        proof {
            assert(dec_lines(bytes@, pos_before, (count - i) as int) == (
            match dec_line(bytes@, pos_before) {
                Some((l, p1)) => match dec_lines(bytes@, p1, (count - i - 1) as int) {
                    Some((ls, p2)) => Some((seq![l] + ls, p2)),
                    None => None,
                },
                None => None,
            }));
        }
        match read_line(bytes, &mut pos) {
            Ok(l) => {
                let ghost lm = l@;
                acc.push(l);
                proof {
                    assert(acc@.map_values(|l: Vec<WayPoint>| l@) =~= acc_before.push(lm));
                    if let Some((ls, e)) = dec_lines(bytes@, pos as int, (count - i - 1) as int) {
                        assert(acc_before + (seq![lm] + ls) =~= acc_before.push(lm) + ls);
                    }
                }
            },
            Err(e) => {
                proof {
                    assert(dec_lines(bytes@, pos_before, (count - i) as int) is None);
                    assert(dec_lines(bytes@, p0, count as int) is None);
                }
                return Err(e);
            },
        }
        i += 1;
    }
    proof {
        assert(acc@.map_values(|l: Vec<WayPoint>| l@) + Seq::<Seq<WayPoint>>::empty()
            =~= acc@.map_values(|l: Vec<WayPoint>| l@));
    }
    if pos != bytes.len() {
        return Err(GeoError::SchemaMismatch);
    }
    Ok(acc)
}


/// Encoding of one polygon vertex.
pub open spec fn enc_vertex(v: Vertex) -> Seq<u8> {
    enc_i64(v.x) + enc_i64(v.y)
}

/// Encoding of a vertex sequence, in order.
pub open spec fn enc_vertices(vs: Seq<Vertex>) -> Seq<u8>
    decreases vs.len(),
{
    if vs.len() == 0 {
        Seq::empty()
    } else {
        enc_vertex(vs[0]) + enc_vertices(vs.drop_first())
    }
}

/// Encoding of one polygon ring: its vertex count, then the vertices.
pub open spec fn enc_ring(r: Seq<Vertex>) -> Seq<u8> {
    enc_u64(r.len() as u64) + enc_vertices(r)
}

/// Encoding of a ring sequence, in order.
pub open spec fn enc_rings(rs: Seq<Seq<Vertex>>) -> Seq<u8>
    decreases rs.len(),
{
    if rs.len() == 0 {
        Seq::empty()
    } else {
        enc_ring(rs[0]) + enc_rings(rs.drop_first())
    }
}

/// Encoding of one polygon: its exterior ring, then its interior rings
/// behind their count.
pub open spec fn enc_polygon(p: PolygonModel) -> Seq<u8> {
    enc_ring(p.exterior) + enc_u64(p.interiors.len() as u64) + enc_rings(p.interiors)
}

/// Encoding of a polygon sequence, in order.
pub open spec fn enc_polygons(ps: Seq<PolygonModel>) -> Seq<u8>
    decreases ps.len(),
{
    if ps.len() == 0 {
        Seq::empty()
    } else {
        enc_polygon(ps[0]) + enc_polygons(ps.drop_first())
    }
}

/// Encoding of one polygon group: its polygon count, then the polygons.
pub open spec fn enc_geo(g: GeoModel) -> Seq<u8> {
    enc_u64(g.geo.len() as u64) + enc_polygons(g.geo)
}

/// Encoding of a polygon-group sequence, in order.
pub open spec fn enc_geo_seq(gs: Seq<GeoModel>) -> Seq<u8>
    decreases gs.len(),
{
    if gs.len() == 0 {
        Seq::empty()
    } else {
        enc_geo(gs[0]) + enc_geo_seq(gs.drop_first())
    }
}

/// Encoding of the polygons cache: the scale divisor, the group count,
/// then the groups.
pub open spec fn enc_geo_cache(gs: Seq<GeoModel>) -> Seq<u8> {
    enc_u64(RATIO_ADJUST as u64) + enc_u64(gs.len() as u64) + enc_geo_seq(gs)
}

/// Decode one polygon vertex at `pos`.
pub open spec fn dec_vertex(bytes: Seq<u8>, pos: int) -> Option<(Vertex, int)> {
    match dec_i64(bytes, pos) {
        Some((x, p1)) => match dec_i64(bytes, p1) {
            Some((y, p2)) => Some((Vertex { x, y }, p2)),
            None => None,
        },
        None => None,
    }
}

/// Decode `count` polygon vertices starting at `pos`.
pub open spec fn dec_vertices(bytes: Seq<u8>, pos: int, count: int) -> Option<(Seq<Vertex>, int)>
    decreases count,
{
    if count <= 0 {
        Some((Seq::empty(), pos))
    } else {
        match dec_vertex(bytes, pos) {
            Some((v, p1)) => match dec_vertices(bytes, p1, count - 1) {
                Some((vs, p2)) => Some((seq![v] + vs, p2)),
                None => None,
            },
            None => None,
        }
    }
}

/// Decode one polygon ring at `pos`.
pub open spec fn dec_ring(bytes: Seq<u8>, pos: int) -> Option<(Seq<Vertex>, int)> {
    match dec_u64(bytes, pos) {
        Some((count, p)) => dec_vertices(bytes, p, count as int),
        None => None,
    }
}

/// Decode `count` polygon rings starting at `pos`.
pub open spec fn dec_rings(bytes: Seq<u8>, pos: int, count: int) -> Option<(Seq<Seq<Vertex>>, int)>
    decreases count,
{
    if count <= 0 {
        Some((Seq::empty(), pos))
    } else {
        match dec_ring(bytes, pos) {
            Some((r, p1)) => match dec_rings(bytes, p1, count - 1) {
                Some((rs, p2)) => Some((seq![r] + rs, p2)),
                None => None,
            },
            None => None,
        }
    }
}

/// Decode one polygon at `pos`.
pub open spec fn dec_polygon(bytes: Seq<u8>, pos: int) -> Option<(PolygonModel, int)> {
    match dec_ring(bytes, pos) {
        Some((exterior, p1)) => match dec_u64(bytes, p1) {
            Some((count, p2)) => match dec_rings(bytes, p2, count as int) {
                Some((interiors, p3)) => Some((PolygonModel { exterior, interiors }, p3)),
                None => None,
            },
            None => None,
        },
        None => None,
    }
}

/// Decode `count` polygons starting at `pos`.
pub open spec fn dec_polygons(bytes: Seq<u8>, pos: int, count: int) -> Option<
    (Seq<PolygonModel>, int),
>
    decreases count,
{
    if count <= 0 {
        Some((Seq::empty(), pos))
    } else {
        match dec_polygon(bytes, pos) {
            Some((p, p1)) => match dec_polygons(bytes, p1, count - 1) {
                Some((ps, p2)) => Some((seq![p] + ps, p2)),
                None => None,
            },
            None => None,
        }
    }
}

/// Decode one polygon group at `pos`.
pub open spec fn dec_geo(bytes: Seq<u8>, pos: int) -> Option<(GeoModel, int)> {
    match dec_u64(bytes, pos) {
        Some((count, p)) => match dec_polygons(bytes, p, count as int) {
            Some((ps, p1)) => Some((GeoModel { geo: ps }, p1)),
            None => None,
        },
        None => None,
    }
}

/// Decode `count` polygon groups starting at `pos`.
pub open spec fn dec_geo_seq(bytes: Seq<u8>, pos: int, count: int) -> Option<(Seq<GeoModel>, int)>
    decreases count,
{
    if count <= 0 {
        Some((Seq::empty(), pos))
    } else {
        match dec_geo(bytes, pos) {
            Some((g, p1)) => match dec_geo_seq(bytes, p1, count - 1) {
                Some((gs, p2)) => Some((seq![g] + gs, p2)),
                None => None,
            },
            None => None,
        }
    }
}

/// Decode a whole polygons cache, rejecting a mismatched scale and any
/// trailing bytes.
pub open spec fn dec_geo_cache(bytes: Seq<u8>) -> Option<Seq<GeoModel>> {
    match dec_u64(bytes, 0) {
        Some((scale, p0)) => {
            if scale != RATIO_ADJUST as u64 {
                None
            } else {
                match dec_u64(bytes, p0) {
                    Some((count, p1)) => match dec_geo_seq(bytes, p1, count as int) {
                        Some((gs, p2)) => {
                            if p2 == bytes.len() {
                                Some(gs)
                            } else {
                                None
                            }
                        },
                        None => None,
                    },
                    None => None,
                }
            }
        },
        None => None,
    }
}

/// Length bounds a polygon-group list needs to round-trip.
pub open spec fn geo_wf_codec(gs: Seq<GeoModel>) -> bool {
    &&& gs.len() <= u64::MAX
    &&& forall|i: int|
        0 <= i < gs.len() ==> {
            &&& (#[trigger] gs[i]).geo.len() <= u64::MAX
            &&& forall|j: int|
                0 <= j < gs[i].geo.len() ==> {
                    &&& (#[trigger] gs[i].geo[j]).exterior.len() <= u64::MAX
                    &&& gs[i].geo[j].interiors.len() <= u64::MAX
                    &&& forall|k: int|
                        0 <= k < gs[i].geo[j].interiors.len() ==> (#[trigger] gs[i].geo[j].interiors[k]).len() <= u64::MAX
                }
        }
}

/// Decoding an encoded vertex yields it back.
proof fn lemma_dec_enc_vertex(pre: Seq<u8>, v: Vertex, rest: Seq<u8>)
    ensures
        dec_vertex(pre + enc_vertex(v) + rest, pre.len() as int) == Some(
            (v, pre.len() as int + enc_vertex(v).len() as int),
        ),
        enc_vertex(v).len() == 16,
{
    let bytes = pre + enc_vertex(v) + rest;
    assert(bytes =~= pre + enc_i64(v.x) + (enc_i64(v.y) + rest));
    lemma_dec_enc_i64(pre, v.x, enc_i64(v.y) + rest);
    let pre1 = pre + enc_i64(v.x);
    assert(bytes =~= pre1 + enc_i64(v.y) + rest);
    lemma_dec_enc_i64(pre1, v.y, rest);
}

/// Decoding an encoded vertex sequence yields it back.
proof fn lemma_dec_enc_vertices(pre: Seq<u8>, vs: Seq<Vertex>, rest: Seq<u8>)
    ensures
        dec_vertices(pre + enc_vertices(vs) + rest, pre.len() as int, vs.len() as int) == Some(
            (vs, pre.len() as int + enc_vertices(vs).len() as int),
        ),
    decreases vs.len(),
{
    let bytes = pre + enc_vertices(vs) + rest;
    if vs.len() == 0 {
        assert(vs =~= Seq::<Vertex>::empty());
    } else {
        let head = vs[0];
        let tail = vs.drop_first();
        assert(bytes =~= pre + enc_vertex(head) + (enc_vertices(tail) + rest));
        lemma_dec_enc_vertex(pre, head, enc_vertices(tail) + rest);
        let pre1 = pre + enc_vertex(head);
        assert(bytes =~= pre1 + enc_vertices(tail) + rest);
        lemma_dec_enc_vertices(pre1, tail, rest);
        assert(seq![head] + tail =~= vs);
    }
}

/// Decoding an encoded ring yields it back.
proof fn lemma_dec_enc_ring(pre: Seq<u8>, r: Seq<Vertex>, rest: Seq<u8>)
    requires
        r.len() <= u64::MAX,
    ensures
        dec_ring(pre + enc_ring(r) + rest, pre.len() as int) == Some(
            (r, pre.len() as int + enc_ring(r).len() as int),
        ),
{
    let bytes = pre + enc_ring(r) + rest;
    assert(bytes =~= pre + enc_u64(r.len() as u64) + (enc_vertices(r) + rest));
    lemma_dec_enc_u64(pre, r.len() as u64, enc_vertices(r) + rest);
    let pre1 = pre + enc_u64(r.len() as u64);
    assert(bytes =~= pre1 + enc_vertices(r) + rest);
    lemma_dec_enc_vertices(pre1, r, rest);
}

/// Decoding an encoded ring sequence yields it back.
proof fn lemma_dec_enc_rings(pre: Seq<u8>, rs: Seq<Seq<Vertex>>, rest: Seq<u8>)
    requires
        forall|i: int| 0 <= i < rs.len() ==> (#[trigger] rs[i]).len() <= u64::MAX,
    ensures
        dec_rings(pre + enc_rings(rs) + rest, pre.len() as int, rs.len() as int) == Some(
            (rs, pre.len() as int + enc_rings(rs).len() as int),
        ),
    decreases rs.len(),
{
    let bytes = pre + enc_rings(rs) + rest;
    if rs.len() == 0 {
        assert(rs =~= Seq::<Seq<Vertex>>::empty());
    } else {
        let head = rs[0];
        let tail = rs.drop_first();
        assert(bytes =~= pre + enc_ring(head) + (enc_rings(tail) + rest));
        lemma_dec_enc_ring(pre, head, enc_rings(tail) + rest);
        let pre1 = pre + enc_ring(head);
        assert(bytes =~= pre1 + enc_rings(tail) + rest);
        lemma_dec_enc_rings(pre1, tail, rest);
        assert(seq![head] + tail =~= rs);
    }
}

/// Decoding an encoded polygon yields it back.
proof fn lemma_dec_enc_polygon(pre: Seq<u8>, p: PolygonModel, rest: Seq<u8>)
    requires
        p.exterior.len() <= u64::MAX,
        p.interiors.len() <= u64::MAX,
        forall|i: int| 0 <= i < p.interiors.len() ==> (#[trigger] p.interiors[i]).len() <= u64::MAX,
    ensures
        dec_polygon(pre + enc_polygon(p) + rest, pre.len() as int) == Some(
            (p, pre.len() as int + enc_polygon(p).len() as int),
        ),
{
    let bytes = pre + enc_polygon(p) + rest;
    let e1 = enc_ring(p.exterior);
    let e2 = enc_u64(p.interiors.len() as u64);
    let e3 = enc_rings(p.interiors);
    assert(bytes =~= pre + e1 + (e2 + e3 + rest));
    lemma_dec_enc_ring(pre, p.exterior, e2 + e3 + rest);
    let pre1 = pre + e1;
    assert(bytes =~= pre1 + e2 + (e3 + rest));
    lemma_dec_enc_u64(pre1, p.interiors.len() as u64, e3 + rest);
    let pre2 = pre1 + e2;
    assert(bytes =~= pre2 + e3 + rest);
    lemma_dec_enc_rings(pre2, p.interiors, rest);
}

/// Decoding an encoded polygon sequence yields it back.
proof fn lemma_dec_enc_polygons(pre: Seq<u8>, ps: Seq<PolygonModel>, rest: Seq<u8>)
    requires
        forall|j: int|
            0 <= j < ps.len() ==> {
                &&& (#[trigger] ps[j]).exterior.len() <= u64::MAX
                &&& ps[j].interiors.len() <= u64::MAX
                &&& forall|k: int|
                    0 <= k < ps[j].interiors.len() ==> (#[trigger] ps[j].interiors[k]).len()
                        <= u64::MAX
            },
    ensures
        dec_polygons(pre + enc_polygons(ps) + rest, pre.len() as int, ps.len() as int) == Some(
            (ps, pre.len() as int + enc_polygons(ps).len() as int),
        ),
    decreases ps.len(),
{
    let bytes = pre + enc_polygons(ps) + rest;
    if ps.len() == 0 {
        assert(ps =~= Seq::<PolygonModel>::empty());
    } else {
        let head = ps[0];
        let tail = ps.drop_first();
        assert(bytes =~= pre + enc_polygon(head) + (enc_polygons(tail) + rest));
        lemma_dec_enc_polygon(pre, head, enc_polygons(tail) + rest);
        let pre1 = pre + enc_polygon(head);
        assert(bytes =~= pre1 + enc_polygons(tail) + rest);
        lemma_dec_enc_polygons(pre1, tail, rest);
        assert(seq![head] + tail =~= ps);
    }
}

/// Decoding an encoded polygon group yields it back.
proof fn lemma_dec_enc_geo(pre: Seq<u8>, g: GeoModel, rest: Seq<u8>)
    requires
        g.geo.len() <= u64::MAX,
        forall|j: int|
            0 <= j < g.geo.len() ==> {
                &&& (#[trigger] g.geo[j]).exterior.len() <= u64::MAX
                &&& g.geo[j].interiors.len() <= u64::MAX
                &&& forall|k: int|
                    0 <= k < g.geo[j].interiors.len() ==> (#[trigger] g.geo[j].interiors[k]).len()
                        <= u64::MAX
            },
    ensures
        dec_geo(pre + enc_geo(g) + rest, pre.len() as int) == Some(
            (g, pre.len() as int + enc_geo(g).len() as int),
        ),
{
    let bytes = pre + enc_geo(g) + rest;
    assert(bytes =~= pre + enc_u64(g.geo.len() as u64) + (enc_polygons(g.geo) + rest));
    lemma_dec_enc_u64(pre, g.geo.len() as u64, enc_polygons(g.geo) + rest);
    let pre1 = pre + enc_u64(g.geo.len() as u64);
    assert(bytes =~= pre1 + enc_polygons(g.geo) + rest);
    lemma_dec_enc_polygons(pre1, g.geo, rest);
}

/// Decoding an encoded polygon-group sequence yields it back.
proof fn lemma_dec_enc_geo_seq(pre: Seq<u8>, gs: Seq<GeoModel>, rest: Seq<u8>)
    requires
        forall|i: int|
            0 <= i < gs.len() ==> {
                &&& (#[trigger] gs[i]).geo.len() <= u64::MAX
                &&& forall|j: int|
                    0 <= j < gs[i].geo.len() ==> {
                        &&& (#[trigger] gs[i].geo[j]).exterior.len() <= u64::MAX
                        &&& gs[i].geo[j].interiors.len() <= u64::MAX
                        &&& forall|k: int|
                            0 <= k < gs[i].geo[j].interiors.len() ==> (#[trigger] gs[i].geo[j].interiors[k]).len() <= u64::MAX
                    }
            },
    ensures
        dec_geo_seq(pre + enc_geo_seq(gs) + rest, pre.len() as int, gs.len() as int) == Some(
            (gs, pre.len() as int + enc_geo_seq(gs).len() as int),
        ),
    decreases gs.len(),
{
    let bytes = pre + enc_geo_seq(gs) + rest;
    if gs.len() == 0 {
        assert(gs =~= Seq::<GeoModel>::empty());
    } else {
        let head = gs[0];
        let tail = gs.drop_first();
        assert(bytes =~= pre + enc_geo(head) + (enc_geo_seq(tail) + rest));
        lemma_dec_enc_geo(pre, head, enc_geo_seq(tail) + rest);
        let pre1 = pre + enc_geo(head);
        assert(bytes =~= pre1 + enc_geo_seq(tail) + rest);
        lemma_dec_enc_geo_seq(pre1, tail, rest);
        assert(seq![head] + tail =~= gs);
    }
}

/// Law: reading a written polygons cache yields the polygon groups back.
pub proof fn lemma_geo_round_trip(gs: Seq<GeoModel>)
    requires
        geo_wf_codec(gs),
    ensures
        dec_geo_cache(enc_geo_cache(gs)) == Some(gs),
{
    let bytes = enc_geo_cache(gs);
    let e0 = enc_u64(RATIO_ADJUST as u64);
    let e1 = enc_u64(gs.len() as u64);
    let e2 = enc_geo_seq(gs);
    assert(bytes =~= Seq::<u8>::empty() + e0 + (e1 + e2));
    lemma_dec_enc_u64(Seq::empty(), RATIO_ADJUST as u64, e1 + e2);
    let p0 = Seq::<u8>::empty() + e0;
    assert(bytes =~= p0 + e1 + e2);
    lemma_dec_enc_u64(p0, gs.len() as u64, e2);
    let p1 = p0 + e1;
    assert(bytes =~= p1 + e2 + Seq::<u8>::empty());
    lemma_dec_enc_geo_seq(p1, gs, Seq::empty());
    assert(p1.len() + e2.len() == bytes.len());
}


/// Append the encoding of one vertex.
fn encode_vertex(out: &mut Vec<u8>, v: Vertex)
    ensures
        final(out)@ == old(out)@ + enc_vertex(v),
{
    encode_i64(out, v.x);
    encode_i64(out, v.y);
    proof {
        assert(out@ =~= old(out)@ + enc_vertex(v));
    }
}

/// Appending one vertex extends a vertex encoding at its end.
proof fn lemma_enc_vertices_push(vs: Seq<Vertex>, v: Vertex)
    ensures
        enc_vertices(vs.push(v)) == enc_vertices(vs) + enc_vertex(v),
    decreases vs.len(),
{
    assert(vs.push(v)[0] == if vs.len() == 0 {
        v
    } else {
        vs[0]
    });
    assert(enc_vertices(vs.push(v)) == enc_vertex(vs.push(v)[0]) + enc_vertices(
        vs.push(v).drop_first(),
    ));
    if vs.len() == 0 {
        assert(vs.push(v).drop_first() =~= Seq::<Vertex>::empty());
        assert(enc_vertices(Seq::<Vertex>::empty()) == Seq::<u8>::empty());
        assert(enc_vertices(vs.push(v)) =~= enc_vertices(vs) + enc_vertex(v));
    } else {
        assert(vs.push(v).drop_first() =~= vs.drop_first().push(v));
        lemma_enc_vertices_push(vs.drop_first(), v);
        assert(enc_vertices(vs) == enc_vertex(vs[0]) + enc_vertices(vs.drop_first()));
        assert(enc_vertices(vs.push(v)) =~= enc_vertices(vs) + enc_vertex(v));
    }
}

/// Appending one ring extends a ring encoding at its end.
proof fn lemma_enc_rings_push(rs: Seq<Seq<Vertex>>, r: Seq<Vertex>)
    ensures
        enc_rings(rs.push(r)) == enc_rings(rs) + enc_ring(r),
    decreases rs.len(),
{
    assert(rs.push(r)[0] == if rs.len() == 0 {
        r
    } else {
        rs[0]
    });
    assert(enc_rings(rs.push(r)) == enc_ring(rs.push(r)[0]) + enc_rings(rs.push(r).drop_first()));
    if rs.len() == 0 {
        assert(rs.push(r).drop_first() =~= Seq::<Seq<Vertex>>::empty());
        assert(enc_rings(Seq::<Seq<Vertex>>::empty()) == Seq::<u8>::empty());
        assert(enc_rings(rs.push(r)) =~= enc_rings(rs) + enc_ring(r));
    } else {
        assert(rs.push(r).drop_first() =~= rs.drop_first().push(r));
        lemma_enc_rings_push(rs.drop_first(), r);
        assert(enc_rings(rs) == enc_ring(rs[0]) + enc_rings(rs.drop_first()));
        assert(enc_rings(rs.push(r)) =~= enc_rings(rs) + enc_ring(r));
    }
}

/// Appending one polygon extends a polygon encoding at its end.
proof fn lemma_enc_polygons_push(ps: Seq<PolygonModel>, p: PolygonModel)
    ensures
        enc_polygons(ps.push(p)) == enc_polygons(ps) + enc_polygon(p),
    decreases ps.len(),
{
    assert(ps.push(p)[0] == if ps.len() == 0 {
        p
    } else {
        ps[0]
    });
    assert(enc_polygons(ps.push(p)) == enc_polygon(ps.push(p)[0]) + enc_polygons(
        ps.push(p).drop_first(),
    ));
    if ps.len() == 0 {
        assert(ps.push(p).drop_first() =~= Seq::<PolygonModel>::empty());
        assert(enc_polygons(Seq::<PolygonModel>::empty()) == Seq::<u8>::empty());
        assert(enc_polygons(ps.push(p)) =~= enc_polygons(ps) + enc_polygon(p));
    } else {
        assert(ps.push(p).drop_first() =~= ps.drop_first().push(p));
        lemma_enc_polygons_push(ps.drop_first(), p);
        assert(enc_polygons(ps) == enc_polygon(ps[0]) + enc_polygons(ps.drop_first()));
        assert(enc_polygons(ps.push(p)) =~= enc_polygons(ps) + enc_polygon(p));
    }
}

/// Appending one group extends a group encoding at its end.
proof fn lemma_enc_geo_seq_push(gs: Seq<GeoModel>, g: GeoModel)
    ensures
        enc_geo_seq(gs.push(g)) == enc_geo_seq(gs) + enc_geo(g),
    decreases gs.len(),
{
    assert(gs.push(g)[0] == if gs.len() == 0 {
        g
    } else {
        gs[0]
    });
    assert(enc_geo_seq(gs.push(g)) == enc_geo(gs.push(g)[0]) + enc_geo_seq(
        gs.push(g).drop_first(),
    ));
    if gs.len() == 0 {
        assert(gs.push(g).drop_first() =~= Seq::<GeoModel>::empty());
        assert(enc_geo_seq(Seq::<GeoModel>::empty()) == Seq::<u8>::empty());
        assert(enc_geo_seq(gs.push(g)) =~= enc_geo_seq(gs) + enc_geo(g));
    } else {
        assert(gs.push(g).drop_first() =~= gs.drop_first().push(g));
        lemma_enc_geo_seq_push(gs.drop_first(), g);
        assert(enc_geo_seq(gs) == enc_geo(gs[0]) + enc_geo_seq(gs.drop_first()));
        assert(enc_geo_seq(gs.push(g)) =~= enc_geo_seq(gs) + enc_geo(g));
    }
}

/// Append the encoding of one ring.
fn encode_ring(out: &mut Vec<u8>, r: &Vec<Vertex>)
    ensures
        final(out)@ == old(out)@ + enc_ring(r@),
{
    let n = r.len();
    encode_u64(out, n as u64);
    let ghost mid = out@;
    let mut i: usize = 0;
    while i < n
        invariant
            n == r@.len(),
            i <= n,
            out@ == mid + enc_vertices(r@.take(i as int)),
        decreases n - i,
    {
        encode_vertex(out, r[i]);
        proof {
            assert(r@.take(i + 1) =~= r@.take(i as int).push(r@[i as int]));
            lemma_enc_vertices_push(r@.take(i as int), r@[i as int]);
        }
        i += 1;
    }
    proof {
        assert(r@.take(n as int) =~= r@);
        assert(out@ =~= old(out)@ + enc_ring(r@));
    }
}

/// Append the encoding of one polygon.
fn encode_polygon(out: &mut Vec<u8>, p: &Polygon)
    ensures
        final(out)@ == old(out)@ + enc_polygon(p@),
{
    let ghost vints = p.interiors@.map_values(|r: Vec<Vertex>| r@);
    encode_ring(out, &p.exterior);
    let n = p.interiors.len();
    encode_u64(out, n as u64);
    let ghost mid = out@;
    let mut i: usize = 0;
    while i < n
        invariant
            n == p.interiors@.len(),
            vints == p.interiors@.map_values(|r: Vec<Vertex>| r@),
            i <= n,
            out@ == mid + enc_rings(vints.take(i as int)),
        decreases n - i,
    {
        encode_ring(out, &p.interiors[i]);
        proof {
            assert(vints.take(i + 1) =~= vints.take(i as int).push(vints[i as int]));
            lemma_enc_rings_push(vints.take(i as int), vints[i as int]);
            assert(vints[i as int] == p.interiors@[i as int]@);
        }
        i += 1;
    }
    proof {
        assert(vints.take(n as int) =~= vints);
        assert(out@ =~= old(out)@ + enc_polygon(p@));
    }
}

/// Append the encoding of one polygon group.
fn encode_geo(out: &mut Vec<u8>, g: &Geo)
    ensures
        final(out)@ == old(out)@ + enc_geo(g@),
{
    let ghost vpolys = g.geo@.map_values(|p: Polygon| p@);
    let n = g.geo.len();
    encode_u64(out, n as u64);
    let ghost mid = out@;
    let mut i: usize = 0;
    while i < n
        invariant
            n == g.geo@.len(),
            vpolys == g.geo@.map_values(|p: Polygon| p@),
            i <= n,
            out@ == mid + enc_polygons(vpolys.take(i as int)),
        decreases n - i,
    {
        encode_polygon(out, &g.geo[i]);
        proof {
            assert(vpolys.take(i + 1) =~= vpolys.take(i as int).push(vpolys[i as int]));
            lemma_enc_polygons_push(vpolys.take(i as int), vpolys[i as int]);
            assert(vpolys[i as int] == g.geo@[i as int]@);
        }
        i += 1;
    }
    proof {
        assert(vpolys.take(n as int) =~= vpolys);
        assert(out@ =~= old(out)@ + enc_geo(g@));
    }
}

/// Serialize the polygon groups into their cache form.
pub fn serialize_geo(groups: &Vec<Geo>) -> (out: Vec<u8>)
    ensures
        out@ == enc_geo_cache(groups@.map_values(|g: Geo| g@)),
{
    let ghost vm = groups@.map_values(|g: Geo| g@);
    let mut out: Vec<u8> = Vec::new();
    encode_u64(&mut out, RATIO_ADJUST as u64);
    let n = groups.len();
    encode_u64(&mut out, n as u64);
    let ghost mid = out@;
    let mut i: usize = 0;
    while i < n
        invariant
            n == groups@.len(),
            vm == groups@.map_values(|g: Geo| g@),
            i <= n,
            out@ == mid + enc_geo_seq(vm.take(i as int)),
        decreases n - i,
    {
        encode_geo(&mut out, &groups[i]);
        proof {
            assert(vm.take(i + 1) =~= vm.take(i as int).push(vm[i as int]));
            lemma_enc_geo_seq_push(vm.take(i as int), vm[i as int]);
            assert(vm[i as int] == groups@[i as int]@);
        }
        i += 1;
    }
    proof {
        assert(vm.take(n as int) =~= vm);
        assert(out@ =~= enc_geo_cache(vm));
    }
    out
}

/// Read one vertex of the cache.
fn read_vertex(bytes: &Vec<u8>, pos: &mut usize) -> (r: Result<Vertex, GeoError>)
    requires
        *old(pos) <= bytes@.len(),
    ensures
        match r {
            Ok(v) => dec_vertex(bytes@, *old(pos) as int) == Some((v, *final(pos) as int)) && *final(pos)
                <= bytes@.len(),
            Err(e) => dec_vertex(bytes@, *old(pos) as int) is None && e == GeoError::SchemaMismatch
                && *final(pos) <= bytes@.len(),
        },
{
    let x = match read_i64(bytes, pos) {
        Ok(v) => v,
        Err(e) => {
            return Err(e);
        },
    };
    let y = match read_i64(bytes, pos) {
        Ok(v) => v,
        Err(e) => {
            return Err(e);
        },
    };
    Ok(Vertex { x, y })
}

/// Read one ring of the cache.
fn read_ring(bytes: &Vec<u8>, pos: &mut usize) -> (r: Result<Vec<Vertex>, GeoError>)
    requires
        *old(pos) <= bytes@.len(),
    ensures
        match r {
            Ok(v) => dec_ring(bytes@, *old(pos) as int) == Some((v@, *final(pos) as int)) && *final(pos)
                <= bytes@.len(),
            Err(e) => dec_ring(bytes@, *old(pos) as int) is None && e == GeoError::SchemaMismatch
                && *final(pos) <= bytes@.len(),
        },
{
    let count = match read_u64(bytes, pos) {
        Ok(x) => x,
        Err(e) => {
            return Err(e);
        },
    };
    let ghost p0 = *pos as int;
    let mut acc: Vec<Vertex> = Vec::new();
    let mut i: u64 = 0;
    proof {
        if let Some((vs, e)) = dec_vertices(bytes@, p0, count as int) {
            assert(Seq::<Vertex>::empty() + vs =~= vs);
        }
    }
    while i < count
        invariant
            dec_u64(bytes@, *old(pos) as int) == Some((count, p0)),
            *pos <= bytes@.len(),
            i <= count,
            dec_vertices(bytes@, p0, count as int) == compose(
                acc@,
                dec_vertices(bytes@, *pos as int, (count - i) as int),
            ),
        decreases count - i,
    {
        let ghost pos_before = *pos as int;
        let ghost acc_before = acc@;
        proof {
            assert(dec_vertices(bytes@, pos_before, (count - i) as int) == (
            match dec_vertex(bytes@, pos_before) {
                Some((v, p1)) => match dec_vertices(bytes@, p1, (count - i - 1) as int) {
                    Some((vs, p2)) => Some((seq![v] + vs, p2)),
                    None => None,
                },
                None => None,
            }));
        }
        match read_vertex(bytes, pos) {
            Ok(v) => {
                acc.push(v);
                proof {
                    if let Some((vs, e)) = dec_vertices(bytes@, *pos as int, (count - i - 1) as int) {
                        assert(acc_before + (seq![v] + vs) =~= acc_before.push(v) + vs);
                    }
                }
            },
            Err(e) => {
                proof {
                    assert(dec_vertices(bytes@, pos_before, (count - i) as int) is None);
                    assert(dec_vertices(bytes@, p0, count as int) is None);
                }
                return Err(e);
            },
        }
        i += 1;
    }
    proof {
        assert(acc@ + Seq::<Vertex>::empty() =~= acc@);
    }
    Ok(acc)
}

/// Read one polygon of the cache.
fn read_polygon(bytes: &Vec<u8>, pos: &mut usize) -> (r: Result<Polygon, GeoError>)
    requires
        *old(pos) <= bytes@.len(),
    ensures
        match r {
            Ok(p) => dec_polygon(bytes@, *old(pos) as int) == Some((p@, *final(pos) as int))
                && *final(pos) <= bytes@.len(),
            Err(e) => dec_polygon(bytes@, *old(pos) as int) is None && e
                == GeoError::SchemaMismatch && *final(pos) <= bytes@.len(),
        },
{
    let exterior = match read_ring(bytes, pos) {
        Ok(v) => v,
        Err(e) => {
            return Err(e);
        },
    };
    let ghost pc = *pos as int;
    let count = match read_u64(bytes, pos) {
        Ok(x) => x,
        Err(e) => {
            return Err(e);
        },
    };
    let ghost p0 = *pos as int;
    let mut acc: Vec<Vec<Vertex>> = Vec::new();
    let mut i: u64 = 0;
    proof {
        if let Some((rs, e)) = dec_rings(bytes@, p0, count as int) {
            assert(Seq::<Seq<Vertex>>::empty() + rs =~= rs);
        }
        assert(acc@.map_values(|r: Vec<Vertex>| r@) =~= Seq::<Seq<Vertex>>::empty());
    }
    while i < count
        invariant
            dec_ring(bytes@, *old(pos) as int) == Some((exterior@, pc)),
            dec_u64(bytes@, pc) == Some((count, p0)),
            *pos <= bytes@.len(),
            i <= count,
            dec_rings(bytes@, p0, count as int) == compose(
                acc@.map_values(|r: Vec<Vertex>| r@),
                dec_rings(bytes@, *pos as int, (count - i) as int),
            ),
        decreases count - i,
    {
        let ghost pos_before = *pos as int;
        let ghost acc_before = acc@.map_values(|r: Vec<Vertex>| r@);
        proof {
            assert(dec_rings(bytes@, pos_before, (count - i) as int) == (
            match dec_ring(bytes@, pos_before) {
                Some((rr, p1)) => match dec_rings(bytes@, p1, (count - i - 1) as int) {
                    Some((rs, p2)) => Some((seq![rr] + rs, p2)),
                    None => None,
                },
                None => None,
            }));
        }
        match read_ring(bytes, pos) {
            Ok(ring) => {
                let ghost rm = ring@;
                acc.push(ring);
                proof {
                    assert(acc@.map_values(|r: Vec<Vertex>| r@) =~= acc_before.push(rm));
                    if let Some((rs, e)) = dec_rings(bytes@, *pos as int, (count - i - 1) as int) {
                        assert(acc_before + (seq![rm] + rs) =~= acc_before.push(rm) + rs);
                    }
                }
            },
            Err(e) => {
                proof {
                    assert(dec_rings(bytes@, pos_before, (count - i) as int) is None);
                    assert(dec_rings(bytes@, p0, count as int) is None);
                }
                return Err(e);
            },
        }
        i += 1;
    }
    proof {
        assert(acc@.map_values(|r: Vec<Vertex>| r@) + Seq::<Seq<Vertex>>::empty() =~= acc@.map_values(
            |r: Vec<Vertex>| r@,
        ));
    }
    Ok(Polygon { exterior, interiors: acc })
}

/// Read one polygon group of the cache.
fn read_geo(bytes: &Vec<u8>, pos: &mut usize) -> (r: Result<Geo, GeoError>)
    requires
        *old(pos) <= bytes@.len(),
    ensures
        match r {
            Ok(g) => dec_geo(bytes@, *old(pos) as int) == Some((g@, *final(pos) as int)) && *final(pos)
                <= bytes@.len(),
            Err(e) => dec_geo(bytes@, *old(pos) as int) is None && e == GeoError::SchemaMismatch
                && *final(pos) <= bytes@.len(),
        },
{
    let count = match read_u64(bytes, pos) {
        Ok(x) => x,
        Err(e) => {
            return Err(e);
        },
    };
    let ghost p0 = *pos as int;
    let mut acc: Vec<Polygon> = Vec::new();
    let mut i: u64 = 0;
    proof {
        if let Some((ps, e)) = dec_polygons(bytes@, p0, count as int) {
            assert(Seq::<PolygonModel>::empty() + ps =~= ps);
        }
        assert(acc@.map_values(|p: Polygon| p@) =~= Seq::<PolygonModel>::empty());
    }
    while i < count
        invariant
            dec_u64(bytes@, *old(pos) as int) == Some((count, p0)),
            *pos <= bytes@.len(),
            i <= count,
            dec_polygons(bytes@, p0, count as int) == compose(
                acc@.map_values(|p: Polygon| p@),
                dec_polygons(bytes@, *pos as int, (count - i) as int),
            ),
        decreases count - i,
    {
        let ghost pos_before = *pos as int;
        let ghost acc_before = acc@.map_values(|p: Polygon| p@);
        proof {
            assert(dec_polygons(bytes@, pos_before, (count - i) as int) == (
            match dec_polygon(bytes@, pos_before) {
                Some((pp, p1)) => match dec_polygons(bytes@, p1, (count - i - 1) as int) {
                    Some((ps, p2)) => Some((seq![pp] + ps, p2)),
                    None => None,
                },
                None => None,
            }));
        }
        match read_polygon(bytes, pos) {
            Ok(poly) => {
                let ghost pm = poly@;
                acc.push(poly);
                proof {
                    assert(acc@.map_values(|p: Polygon| p@) =~= acc_before.push(pm));
                    if let Some((ps, e)) = dec_polygons(
                        bytes@,
                        *pos as int,
                        (count - i - 1) as int,
                    ) {
                        assert(acc_before + (seq![pm] + ps) =~= acc_before.push(pm) + ps);
                    }
                }
            },
            Err(e) => {
                proof {
                    assert(dec_polygons(bytes@, pos_before, (count - i) as int) is None);
                    assert(dec_polygons(bytes@, p0, count as int) is None);
                }
                return Err(e);
            },
        }
        i += 1;
    }
    proof {
        assert(acc@.map_values(|p: Polygon| p@) + Seq::<PolygonModel>::empty() =~= acc@.map_values(
            |p: Polygon| p@,
        ));
    }
    Ok(Geo { geo: acc })
}

/// Deserialize a polygons cache, rejecting a mismatched scale, any
/// malformed content, and trailing bytes.
pub fn deserialize_geo(bytes: &Vec<u8>) -> (r: Result<Vec<Geo>, GeoError>)
    ensures
        match r {
            Ok(gs) => dec_geo_cache(bytes@) == Some(gs@.map_values(|g: Geo| g@)),
            Err(e) => dec_geo_cache(bytes@) is None && e == GeoError::SchemaMismatch,
        },
{
    let mut pos: usize = 0;
    let scale = match read_u64(bytes, &mut pos) {
        Ok(x) => x,
        Err(e) => {
            return Err(e);
        },
    };
    if scale != RATIO_ADJUST as u64 {
        return Err(GeoError::SchemaMismatch);
    }
    let count = match read_u64(bytes, &mut pos) {
        Ok(x) => x,
        Err(e) => {
            return Err(e);
        },
    };
    let ghost p0 = pos as int;
    let mut acc: Vec<Geo> = Vec::new();
    let mut i: u64 = 0;
    proof {
        if let Some((gs, e)) = dec_geo_seq(bytes@, p0, count as int) {
            assert(Seq::<GeoModel>::empty() + gs =~= gs);
        }
        assert(acc@.map_values(|g: Geo| g@) =~= Seq::<GeoModel>::empty());
    }
    while i < count
        invariant
            dec_u64(bytes@, 8) == Some((count, p0)),
            pos <= bytes@.len(),
            i <= count,
            dec_geo_seq(bytes@, p0, count as int) == compose(
                acc@.map_values(|g: Geo| g@),
                dec_geo_seq(bytes@, pos as int, (count - i) as int),
            ),
        decreases count - i,
    {
        let ghost pos_before = pos as int;
        let ghost acc_before = acc@.map_values(|g: Geo| g@);
        proof {
            assert(dec_geo_seq(bytes@, pos_before, (count - i) as int) == (
            match dec_geo(bytes@, pos_before) {
                Some((gg, p1)) => match dec_geo_seq(bytes@, p1, (count - i - 1) as int) {
                    Some((gs, p2)) => Some((seq![gg] + gs, p2)),
                    None => None,
                },
                None => None,
            }));
        }
        match read_geo(bytes, &mut pos) {
            Ok(g) => {
                let ghost gm = g@;
                acc.push(g);
                proof {
                    assert(acc@.map_values(|g: Geo| g@) =~= acc_before.push(gm));
                    if let Some((gs, e)) = dec_geo_seq(bytes@, pos as int, (count - i - 1) as int) {
                        assert(acc_before + (seq![gm] + gs) =~= acc_before.push(gm) + gs);
                    }
                }
            },
            Err(e) => {
                proof {
                    assert(dec_geo_seq(bytes@, pos_before, (count - i) as int) is None);
                    assert(dec_geo_seq(bytes@, p0, count as int) is None);
                }
                return Err(e);
            },
        }
        i += 1;
    }
    proof {
        assert(acc@.map_values(|g: Geo| g@) + Seq::<GeoModel>::empty() =~= acc@.map_values(
            |g: Geo| g@,
        ));
    }
    if pos != bytes.len() {
        return Err(GeoError::SchemaMismatch);
    }
    Ok(acc)
}


/// The model of one name group of ways.
pub open spec fn group_model(g: Seq<Way>) -> Seq<WayModel> {
    g.map_values(|w: Way| w@)
}

/// Encoding of a sequence of name groups, in order, each as a counted way
/// list.
pub open spec fn enc_group_list(gs: Seq<Seq<WayModel>>) -> Seq<u8>
    decreases gs.len(),
{
    if gs.len() == 0 {
        Seq::empty()
    } else {
        enc_way_list(gs[0]) + enc_group_list(gs.drop_first())
    }
}

/// Encoding of the grouped-ways cache, the intermediate form between the
/// two ingestion phases: the scale divisor, the group count, then one way
/// list per name group.
pub open spec fn enc_grouped(gs: Seq<Seq<WayModel>>) -> Seq<u8> {
    enc_u64(RATIO_ADJUST as u64) + enc_u64(gs.len() as u64) + enc_group_list(gs)
}

/// Decode `count` name groups starting at `pos`.
pub open spec fn dec_group_list(bytes: Seq<u8>, pos: int, count: int) -> Option<
    (Seq<Seq<WayModel>>, int),
>
    decreases count,
{
    if count <= 0 {
        Some((Seq::empty(), pos))
    } else {
        match dec_way_list(bytes, pos) {
            Some((g, p1)) => match dec_group_list(bytes, p1, count - 1) {
                Some((gs, p2)) => Some((seq![g] + gs, p2)),
                None => None,
            },
            None => None,
        }
    }
}

/// Decode a whole grouped-ways cache, rejecting a mismatched scale and any
/// trailing bytes.
pub open spec fn dec_grouped(bytes: Seq<u8>) -> Option<Seq<Seq<WayModel>>> {
    match dec_u64(bytes, 0) {
        Some((scale, p0)) => {
            if scale != RATIO_ADJUST as u64 {
                None
            } else {
                match dec_u64(bytes, p0) {
                    Some((count, p1)) => match dec_group_list(bytes, p1, count as int) {
                        Some((gs, p2)) => {
                            if p2 == bytes.len() {
                                Some(gs)
                            } else {
                                None
                            }
                        },
                        None => None,
                    },
                    None => None,
                }
            }
        },
        None => None,
    }
}

/// Length bounds a grouped-ways list needs to round-trip.
pub open spec fn grouped_wf_codec(gs: Seq<Seq<WayModel>>) -> bool {
    &&& gs.len() <= u64::MAX
    &&& forall|i: int| 0 <= i < gs.len() ==> ways_wf_codec(#[trigger] gs[i])
}

/// Decoding an encoded group sequence yields it back.
proof fn lemma_dec_enc_group_list(pre: Seq<u8>, gs: Seq<Seq<WayModel>>, rest: Seq<u8>)
    requires
        forall|i: int| 0 <= i < gs.len() ==> ways_wf_codec(#[trigger] gs[i]),
    ensures
        dec_group_list(pre + enc_group_list(gs) + rest, pre.len() as int, gs.len() as int) == Some(
            (gs, pre.len() as int + enc_group_list(gs).len() as int),
        ),
    decreases gs.len(),
{
    let bytes = pre + enc_group_list(gs) + rest;
    if gs.len() == 0 {
        assert(gs =~= Seq::<Seq<WayModel>>::empty());
    } else {
        let head = gs[0];
        let tail = gs.drop_first();
        assert(bytes =~= pre + enc_way_list(head) + (enc_group_list(tail) + rest));
        lemma_dec_enc_way_list(pre, head, enc_group_list(tail) + rest);
        let pre1 = pre + enc_way_list(head);
        assert(bytes =~= pre1 + enc_group_list(tail) + rest);
        lemma_dec_enc_group_list(pre1, tail, rest);
        assert(seq![head] + tail =~= gs);
    }
}

/// Law: reading a written grouped-ways cache yields the groups back.
pub proof fn lemma_grouped_round_trip(gs: Seq<Seq<WayModel>>)
    requires
        grouped_wf_codec(gs),
    ensures
        dec_grouped(enc_grouped(gs)) == Some(gs),
{
    let bytes = enc_grouped(gs);
    let e0 = enc_u64(RATIO_ADJUST as u64);
    let e1 = enc_u64(gs.len() as u64);
    let e2 = enc_group_list(gs);
    assert(bytes =~= Seq::<u8>::empty() + e0 + (e1 + e2));
    lemma_dec_enc_u64(Seq::empty(), RATIO_ADJUST as u64, e1 + e2);
    let p0 = Seq::<u8>::empty() + e0;
    assert(bytes =~= p0 + e1 + e2);
    lemma_dec_enc_u64(p0, gs.len() as u64, e2);
    let p1 = p0 + e1;
    assert(bytes =~= p1 + e2 + Seq::<u8>::empty());
    lemma_dec_enc_group_list(p1, gs, Seq::empty());
    assert(p1.len() + e2.len() == bytes.len());
}

/// Appending one group extends a group encoding at its end.
proof fn lemma_enc_group_list_push(gs: Seq<Seq<WayModel>>, g: Seq<WayModel>)
    ensures
        enc_group_list(gs.push(g)) == enc_group_list(gs) + enc_way_list(g),
    decreases gs.len(),
{
    assert(gs.push(g)[0] == if gs.len() == 0 {
        g
    } else {
        gs[0]
    });
    assert(enc_group_list(gs.push(g)) == enc_way_list(gs.push(g)[0]) + enc_group_list(
        gs.push(g).drop_first(),
    ));
    if gs.len() == 0 {
        assert(gs.push(g).drop_first() =~= Seq::<Seq<WayModel>>::empty());
        assert(enc_group_list(Seq::<Seq<WayModel>>::empty()) == Seq::<u8>::empty());
        assert(enc_group_list(gs.push(g)) =~= enc_group_list(gs) + enc_way_list(g));
    } else {
        assert(gs.push(g).drop_first() =~= gs.drop_first().push(g));
        lemma_enc_group_list_push(gs.drop_first(), g);
        assert(enc_group_list(gs) == enc_way_list(gs[0]) + enc_group_list(gs.drop_first()));
        assert(enc_group_list(gs.push(g)) =~= enc_group_list(gs) + enc_way_list(g));
    }
}

/// Serialize the name-grouped ways into their cache form, so the merge
/// phase runs once and the classification phase can reload its input.
pub fn serialize_grouped_ways(groups: &Vec<Vec<Way>>) -> (out: Vec<u8>)
    ensures
        out@ == enc_grouped(groups@.map_values(|g: Vec<Way>| group_model(g@))),
{
    let ghost vm = groups@.map_values(|g: Vec<Way>| group_model(g@));
    let mut out: Vec<u8> = Vec::new();
    encode_u64(&mut out, RATIO_ADJUST as u64);
    let n = groups.len();
    encode_u64(&mut out, n as u64);
    let ghost mid = out@;
    let mut i: usize = 0;
    while i < n
        invariant
            n == groups@.len(),
            vm == groups@.map_values(|g: Vec<Way>| group_model(g@)),
            i <= n,
            out@ == mid + enc_group_list(vm.take(i as int)),
        decreases n - i,
    {
        encode_way_list(&mut out, &groups[i]);
        proof {
            assert(vm.take(i + 1) =~= vm.take(i as int).push(vm[i as int]));
            lemma_enc_group_list_push(vm.take(i as int), vm[i as int]);
            assert(vm[i as int] == group_model(groups@[i as int]@));
        }
        i += 1;
    }
    proof {
        assert(vm.take(n as int) =~= vm);
        assert(out@ =~= enc_grouped(vm));
    }
    out
}

/// Deserialize a grouped-ways cache, rejecting a mismatched scale, any
/// malformed content, and trailing bytes.
pub fn deserialize_grouped_ways(bytes: &Vec<u8>) -> (r: Result<Vec<Vec<Way>>, GeoError>)
    ensures
        match r {
            Ok(gs) => dec_grouped(bytes@) == Some(
                gs@.map_values(|g: Vec<Way>| group_model(g@)),
            ),
            Err(e) => dec_grouped(bytes@) is None && e == GeoError::SchemaMismatch,
        },
{
    let mut pos: usize = 0;
    let scale = match read_u64(bytes, &mut pos) {
        Ok(x) => x,
        Err(e) => {
            return Err(e);
        },
    };
    if scale != RATIO_ADJUST as u64 {
        return Err(GeoError::SchemaMismatch);
    }
    let count = match read_u64(bytes, &mut pos) {
        Ok(x) => x,
        Err(e) => {
            return Err(e);
        },
    };
    let ghost p0 = pos as int;
    let mut acc: Vec<Vec<Way>> = Vec::new();
    let mut i: u64 = 0;
    proof {
        if let Some((gs, e)) = dec_group_list(bytes@, p0, count as int) {
            assert(Seq::<Seq<WayModel>>::empty() + gs =~= gs);
        }
        assert(acc@.map_values(|g: Vec<Way>| group_model(g@)) =~= Seq::<Seq<WayModel>>::empty());
    }
    while i < count
        invariant
            dec_u64(bytes@, 8) == Some((count, p0)),
            pos <= bytes@.len(),
            i <= count,
            dec_group_list(bytes@, p0, count as int) == compose(
                acc@.map_values(|g: Vec<Way>| group_model(g@)),
                dec_group_list(bytes@, pos as int, (count - i) as int),
            ),
        decreases count - i,
    {
        let ghost pos_before = pos as int;
        let ghost acc_before = acc@.map_values(|g: Vec<Way>| group_model(g@));
        proof {
            assert(dec_group_list(bytes@, pos_before, (count - i) as int) == (
            match dec_way_list(bytes@, pos_before) {
                Some((gg, p1)) => match dec_group_list(bytes@, p1, (count - i - 1) as int) {
                    Some((gs, p2)) => Some((seq![gg] + gs, p2)),
                    None => None,
                },
                None => None,
            }));
        }
        match read_way_list(bytes, &mut pos) {
            Ok(g) => {
                let ghost gm = g@.map_values(|w: Way| w@);
                acc.push(g);
                proof {
                    assert(acc@.map_values(|g: Vec<Way>| group_model(g@)) =~= acc_before.push(gm));
                    if let Some((gs, e)) = dec_group_list(
                        bytes@,
                        pos as int,
                        (count - i - 1) as int,
                    ) {
                        assert(acc_before + (seq![gm] + gs) =~= acc_before.push(gm) + gs);
                    }
                }
            },
            Err(e) => {
                proof {
                    assert(dec_group_list(bytes@, pos_before, (count - i) as int) is None);
                    assert(dec_group_list(bytes@, p0, count as int) is None);
                }
                return Err(e);
            },
        }
        i += 1;
    }
    proof {
        assert(acc@.map_values(|g: Vec<Way>| group_model(g@)) + Seq::<Seq<WayModel>>::empty()
            =~= acc@.map_values(|g: Vec<Way>| group_model(g@)));
    }
    if pos != bytes.len() {
        return Err(GeoError::SchemaMismatch);
    }
    Ok(acc)
}

} // verus!
