//! Lean in-pipeline point representation and its binary record.
//!
//! A point carries only the fields that block partitioning, feature extraction
//! and normalisation read. Spill files and border files hold a run of fixed
//! 39-byte records, little-endian: the point's index in the input stream, `x`,
//! `y`, `z`, intensity, classification, return number, number of returns and
//! scan angle.

use vstd::prelude::*;

use crate::codec::{
    get_u16, get_u64, law_u16_round_trip, law_u64_round_trip, le16, le64, lemma_stands_split,
    push_u16, push_u64, stands_at, u16_at, u64_at,
};
use crate::error::ClassifierError;
use crate::ieee::Real64;

verus! {

/// Lean in-pipeline point representation.
#[derive(Debug, Clone, Copy, PartialEq, Eq, Structural)]
pub struct LitePoint {
    pub x: Real64,
    pub y: Real64,
    pub z: Real64,
    pub intensity: u16,
    pub return_number: u8,
    pub number_of_returns: u8,
    pub scan_angle: i16,
    pub classification: u8,
}

impl Default for LitePoint {
    /// The point whose fields are all zero.
    fn default() -> (r: Self)
        ensures
            r == (LitePoint {
                x: Real64 { bits: 0 },
                y: Real64 { bits: 0 },
                z: Real64 { bits: 0 },
                intensity: 0,
                return_number: 0,
                number_of_returns: 0,
                scan_angle: 0,
                classification: 0,
            }),
    {
        LitePoint {
            x: Real64 { bits: 0 },
            y: Real64 { bits: 0 },
            z: Real64 { bits: 0 },
            intensity: 0,
            return_number: 0,
            number_of_returns: 0,
            scan_angle: 0,
            classification: 0,
        }
    }
}

/// A point with its index in the input stream.
pub type IndexedPoint = (u64, LitePoint);

/// Bytes per point in a spill file.
pub const PT_BYTES: usize = 39;

// ── The record ──────────────────────────────────────────────────────────────

/// The two's complement pattern of `v`.
pub open spec fn angle_bits(v: i16) -> u16 {
    if v < 0 {
        (v + 65536) as u16
    } else {
        v as u16
    }
}

/// The number with the two's complement pattern `w`.
pub open spec fn angle_of(w: u16) -> i16 {
    if w >= 32768 {
        (w - 65536) as i16
    } else {
        w as i16
    }
}

/// The record of one point.
pub open spec fn point_bytes(p: IndexedPoint) -> Seq<u8> {
    le64(p.0) + (le64(p.1.x.bits) + (le64(p.1.y.bits) + (le64(p.1.z.bits) + (le16(p.1.intensity) + (
    seq![p.1.classification, p.1.return_number, p.1.number_of_returns] + le16(
        angle_bits(p.1.scan_angle),
    ))))))
}

/// The point whose record stands at `pos`.
pub open spec fn point_at(b: Seq<u8>, pos: int) -> IndexedPoint {
    (
        u64_at(b, pos),
        LitePoint {
            x: Real64 { bits: u64_at(b, pos + 8) },
            y: Real64 { bits: u64_at(b, pos + 16) },
            z: Real64 { bits: u64_at(b, pos + 24) },
            intensity: u16_at(b, pos + 32),
            return_number: b[pos + 35],
            number_of_returns: b[pos + 36],
            scan_angle: angle_of(u16_at(b, pos + 37)),
            classification: b[pos + 34],
        },
    )
}

/// The records of `pts`, one after the other.
pub open spec fn spill_bytes(pts: Seq<IndexedPoint>) -> Seq<u8>
    decreases pts.len(),
{
    if pts.len() == 0 {
        Seq::empty()
    } else {
        spill_bytes(pts.drop_last()) + point_bytes(pts.last())
    }
}

/// The first `n` points of a spill file.
pub open spec fn spilled_points(b: Seq<u8>, n: nat) -> Seq<IndexedPoint> {
    Seq::new(n, |i: int| point_at(b, 39 * i))
}

proof fn lemma_point_round_trip(b: Seq<u8>, pos: int, p: IndexedPoint)
    requires
        stands_at(b, pos, point_bytes(p)),
    ensures
        point_at(b, pos) == p,
{
    let pt = p.1;
    let mid = seq![pt.classification, pt.return_number, pt.number_of_returns];
    let t6 = le16(angle_bits(pt.scan_angle));
    let t5 = mid + t6;
    let t4 = le16(pt.intensity) + t5;
    let t3 = le64(pt.z.bits) + t4;
    let t2 = le64(pt.y.bits) + t3;
    let t1 = le64(pt.x.bits) + t2;
    lemma_stands_split(b, pos, le64(p.0), t1);
    lemma_stands_split(b, pos + 8, le64(pt.x.bits), t2);
    lemma_stands_split(b, pos + 16, le64(pt.y.bits), t3);
    lemma_stands_split(b, pos + 24, le64(pt.z.bits), t4);
    lemma_stands_split(b, pos + 32, le16(pt.intensity), t5);
    lemma_stands_split(b, pos + 34, mid, t6);
    law_u64_round_trip(b, pos, p.0);
    law_u64_round_trip(b, pos + 8, pt.x.bits);
    law_u64_round_trip(b, pos + 16, pt.y.bits);
    law_u64_round_trip(b, pos + 24, pt.z.bits);
    law_u16_round_trip(b, pos + 32, pt.intensity);
    law_u16_round_trip(b, pos + 37, angle_bits(pt.scan_angle));
    let w = b.subrange(pos + 34, pos + 37);
    assert(w[0] == b[pos + 34] && w[1] == b[pos + 35] && w[2] == b[pos + 36]);
}

pub proof fn lemma_spill_len(pts: Seq<IndexedPoint>)
    ensures
        spill_bytes(pts).len() == 39 * pts.len(),
    decreases pts.len(),
{
    if pts.len() > 0 {
        lemma_spill_len(pts.drop_last());
    }
}

/// Points read back from a spill file as they were written, in order, index
/// and every field unchanged.
pub proof fn law_spill_round_trip(pts: Seq<IndexedPoint>)
    ensures
        spill_bytes(pts).len() % 39 == 0,
        spilled_points(spill_bytes(pts), spill_bytes(pts).len() / 39) == pts,
{
    lemma_spill_len(pts);
    lemma_spill_reads(spill_bytes(pts), pts);
}

proof fn lemma_spill_reads(b: Seq<u8>, pts: Seq<IndexedPoint>)
    requires
        stands_at(b, 0, spill_bytes(pts)) || b == spill_bytes(pts),
    ensures
        spilled_points(b, pts.len()) == pts,
    decreases pts.len(),
{
    if b == spill_bytes(pts) {
        assert(b.subrange(0, b.len() as int) =~= b);
    }
    if pts.len() > 0 {
        let d = pts.drop_last();
        lemma_spill_len(d);
        lemma_stands_split(b, 0, spill_bytes(d), point_bytes(pts.last()));
        lemma_spill_reads(b, d);
        lemma_point_round_trip(b, 39 * d.len() as int, pts.last());
        assert(spilled_points(b, pts.len()) =~= pts) by {
            assert forall|i: int| 0 <= i < pts.len() implies spilled_points(b, pts.len())[i]
                == pts[i] by {
                if i < d.len() {
                    assert(spilled_points(b, d.len())[i] == d[i]);
                }
            }
        }
    } else {
        assert(spilled_points(b, 0) =~= pts);
    }
}

fn bits_of_angle(v: i16) -> (r: u16)
    ensures
        r == angle_bits(v),
{
    if v < 0 {
        (v as i32 + 65536) as u16
    } else {
        v as u16
    }
}

fn angle_from_bits(w: u16) -> (r: i16)
    ensures
        r == angle_of(w),
{
    if w >= 32768 {
        (w as i32 - 65536) as i16
    } else {
        w as i16
    }
}

fn push_point(out: &mut Vec<u8>, p: &IndexedPoint)
    ensures
        final(out)@ == old(out)@ + point_bytes(*p),
{
    push_u64(out, p.0);
    push_u64(out, p.1.x.bits);
    push_u64(out, p.1.y.bits);
    push_u64(out, p.1.z.bits);
    push_u16(out, p.1.intensity);
    out.push(p.1.classification);
    out.push(p.1.return_number);
    out.push(p.1.number_of_returns);
    push_u16(out, bits_of_angle(p.1.scan_angle));
    assert(out@ =~= old(out)@ + point_bytes(*p));
}

fn get_point(b: &Vec<u8>, pos: usize) -> (r: IndexedPoint)
    requires
        pos + 39 <= b@.len(),
    ensures
        r == point_at(b@, pos as int),
{
    assert(b@.len() == b.len());
    (
        get_u64(b, pos),
        LitePoint {
            x: Real64 { bits: get_u64(b, pos + 8) },
            y: Real64 { bits: get_u64(b, pos + 16) },
            z: Real64 { bits: get_u64(b, pos + 24) },
            intensity: get_u16(b, pos + 32),
            return_number: b[pos + 35],
            number_of_returns: b[pos + 36],
            scan_angle: angle_from_bits(get_u16(b, pos + 37)),
            classification: b[pos + 34],
        },
    )
}

/// The contents of the spill file that holds `pts`.
pub fn write_spill_file(pts: &Vec<IndexedPoint>) -> (r: Vec<u8>)
    ensures
        r@ == spill_bytes(pts@),
{
    let mut out: Vec<u8> = Vec::new();
    let mut i: usize = 0;
    assert(pts@.take(0) =~= Seq::empty());
    assert(out@ =~= spill_bytes(pts@.take(0)));
    while i < pts.len()
        invariant
            i <= pts@.len(),
            out@ == spill_bytes(pts@.take(i as int)),
        decreases pts@.len() - i,
    {
        push_point(&mut out, &pts[i]);
        proof {
            assert(pts@.take(i + 1).drop_last() =~= pts@.take(i as int));
            assert(pts@.take(i + 1).last() == pts@[i as int]);
        }
        i = i + 1;
    }
    assert(pts@.take(i as int) =~= pts@);
    out
}

/// The points that the spill file `path` with these contents holds. A file
/// whose length is no multiple of the record length is corrupt.
pub fn read_spill_file(path: &str, bytes: &Vec<u8>) -> (r: Result<Vec<IndexedPoint>, ClassifierError>)
    ensures
        r is Ok <==> bytes@.len() % 39 == 0,
        r matches Ok(pts) ==> pts@ == spilled_points(bytes@, bytes@.len() / 39),
        r matches Err(e) ==> e matches ClassifierError::SpillCorrupt { path: p } && p@ == path@,
{
    if bytes.len() % PT_BYTES != 0 {
        return Err(ClassifierError::SpillCorrupt { path: path.to_owned() });
    }
    let n: usize = bytes.len() / PT_BYTES;
    let mut out: Vec<IndexedPoint> = Vec::new();
    let mut i: usize = 0;
    while i < n
        invariant
            i <= n,
            39 * n == bytes@.len(),
            out@ == spilled_points(bytes@, i as nat),
        decreases n - i,
    {
        assert(bytes@.len() == bytes.len());
        out.push(get_point(bytes, i * PT_BYTES));
        assert(out@ =~= spilled_points(bytes@, (i + 1) as nat));
        i = i + 1;
    }
    Ok(out)
}

/// A spilled point takes 39 bytes: its stream index, its three coordinates, its
/// intensity, its classification, its return number, the number of returns, and
/// its scan angle in two's complement.
pub proof fn law_point_layout(p: IndexedPoint)
    ensures
        ({
            let b = point_bytes(p);
            &&& b.len() == 39
            &&& u64_at(b, 0) == p.0
            &&& u64_at(b, 8) == p.1.x.bits
            &&& u64_at(b, 16) == p.1.y.bits
            &&& u64_at(b, 24) == p.1.z.bits
            &&& u16_at(b, 32) == p.1.intensity
            &&& b[34] == p.1.classification
            &&& b[35] == p.1.return_number
            &&& b[36] == p.1.number_of_returns
            &&& u16_at(b, 37) == p.1.scan_angle as int % 65536
        }),
{
    let b = point_bytes(p);
    lemma_point_len(p);
    assert(b.subrange(0, 39) =~= b);
    lemma_point_round_trip(b, 0, p);
    lemma_point_fields(b, p);
}

proof fn lemma_point_len(p: IndexedPoint)
    ensures
        point_bytes(p).len() == 39,
{
}

proof fn lemma_point_fields(b: Seq<u8>, p: IndexedPoint)
    requires
        point_at(b, 0) == p,
    ensures
        u64_at(b, 0) == p.0,
        u64_at(b, 8) == p.1.x.bits,
        u64_at(b, 16) == p.1.y.bits,
        u64_at(b, 24) == p.1.z.bits,
        u16_at(b, 32) == p.1.intensity,
        b[34] == p.1.classification,
        b[35] == p.1.return_number,
        b[36] == p.1.number_of_returns,
        u16_at(b, 37) == p.1.scan_angle as int % 65536,
{
    lemma_angle(u16_at(b, 37));
}

proof fn lemma_angle(w: u16)
    ensures
        angle_of(w) as int % 65536 == w,
{
    if w >= 32768 {
        assert(angle_of(w) as int == w - 65536);
        assert((w - 65536) % 65536 == w as int);
    } else {
        assert(angle_of(w) as int == w);
    }
}

/// A stored point is read from the same places.
pub proof fn law_points_are_read_from_their_places(b: Seq<u8>, n: nat, i: int)
    requires
        0 <= i < n,
    ensures
        ({
            let p = spilled_points(b, n)[i];
            &&& p.0 == u64_at(b, 39 * i)
            &&& p.1.x.bits == u64_at(b, 39 * i + 8)
            &&& p.1.y.bits == u64_at(b, 39 * i + 16)
            &&& p.1.z.bits == u64_at(b, 39 * i + 24)
            &&& p.1.intensity == u16_at(b, 39 * i + 32)
            &&& p.1.classification == b[39 * i + 34]
            &&& p.1.return_number == b[39 * i + 35]
            &&& p.1.number_of_returns == b[39 * i + 36]
            &&& p.1.scan_angle as int % 65536 == u16_at(b, 39 * i + 37)
        }),
{
    lemma_angle(u16_at(b, 39 * i + 37));
}

} // verus!
