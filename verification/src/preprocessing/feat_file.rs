//! The `.feat` binary block file.
//!
//! Little-endian: the magic `WBFT`, the version byte, the number of rows, the
//! number of features per row, the block ID, the block's origin and, from
//! version 2 on, the number of trailing halo rows; then the feature values,
//! row by row, as 32-bit floating-point patterns.

use vstd::prelude::*;

use crate::codec::{
    get_u32, get_u64, get_words, law_u32_round_trip, law_u64_round_trip, law_words_round_trip, le32,
    le64, le_words, lemma_le_words_len, lemma_stands_split, push_u32, push_u64, push_words,
    stands_at, u32_at, u64_at, words_at,
};
use crate::error::{pipeline_text, ClassifierError};
use crate::ieee::Real64;
use crate::preprocessing::{FEAT_VERSION, FEAT_VERSION_V1, MAX_FEAT_PAYLOAD_BYTES, N_FEATURES};
use crate::text::{concat2, decimal, decimal_text};

verus! {

/// Magic bytes written at the start of every `.feat` file: `WBFT`.
pub open spec fn feat_magic() -> Seq<u8> {
    seq![87u8, 66u8, 70u8, 84u8]
}

/// Parsed header of a `.feat` file.
#[derive(Debug, Clone, Copy, PartialEq, Eq, Structural)]
pub struct FeatHeader {
    pub n_points: usize,
    pub n_features: usize,
    pub origin_x: Real64,
    pub origin_y: Real64,
    /// Trailing rows that are halo samples; 0 for version 1 files.
    pub n_halo: usize,
    /// Where the feature values start.
    pub data_start: usize,
}

// ── Writing ─────────────────────────────────────────────────────────────────

/// The feature values of all rows, one row after the other.
pub open spec fn flattened(rows: Seq<Vec<u32>>) -> Seq<u32>
    decreases rows.len(),
{
    if rows.len() == 0 {
        Seq::empty()
    } else {
        flattened(rows.drop_last()) + rows.last()@
    }
}

/// `n` as the header stores it: modulo two to the 32.
pub open spec fn stored(n: usize) -> u32 {
    (n as int % 0x1_0000_0000) as u32
}

/// A version 2 file with these header fields and values.
pub open spec fn feat_bytes(
    block_id: u64,
    n_points: usize,
    n_features: usize,
    n_halo: usize,
    origin_x: Real64,
    origin_y: Real64,
    values: Seq<u32>,
) -> Seq<u8> {
    feat_magic() + (seq![FEAT_VERSION] + (le32(stored(n_points)) + (le32(stored(n_features)) + (le64(
        block_id,
    ) + (le64(origin_x.bits) + (le64(origin_y.bits) + (le32(stored(n_halo)) + le_words(values))))))))
}

fn to_stored(n: usize) -> (r: u32)
    ensures
        r == stored(n),
{
    (n as u64 % 0x1_0000_0000) as u32
}

proof fn lemma_le_words_add(a: Seq<u32>, b: Seq<u32>)
    ensures
        le_words(a + b) == le_words(a) + le_words(b),
    decreases b.len(),
{
    if b.len() == 0 {
        assert(a + b =~= a);
        assert(le_words(a) + le_words(b) =~= le_words(a));
    } else {
        assert((a + b).drop_last() =~= a + b.drop_last());
        lemma_le_words_add(a, b.drop_last());
        assert((a + b).last() == b.last());
        assert(le_words(a + b) =~= le_words(a) + le_words(b));
    }
}

/// The contents of a version 2 block file.
pub fn write_feat_file(
    block_id: u64,
    n_points: usize,
    n_features: usize,
    n_halo: usize,
    origin_x: Real64,
    origin_y: Real64,
    features: &Vec<Vec<u32>>,
) -> (r: Vec<u8>)
    ensures
        r@ == feat_bytes(
            block_id,
            n_points,
            n_features,
            n_halo,
            origin_x,
            origin_y,
            flattened(features@),
        ),
{
    let mut out: Vec<u8> = Vec::new();
    out.push(87);
    out.push(66);
    out.push(70);
    out.push(84);
    out.push(FEAT_VERSION);
    push_u32(&mut out, to_stored(n_points));
    push_u32(&mut out, to_stored(n_features));
    push_u64(&mut out, block_id);
    push_u64(&mut out, origin_x.bits);
    push_u64(&mut out, origin_y.bits);
    push_u32(&mut out, to_stored(n_halo));
    let ghost head = out@;
    let mut i: usize = 0;
    assert(features@.take(0) =~= Seq::empty());
    assert(out@ =~= head + le_words(flattened(features@.take(0))));
    while i < features.len()
        invariant
            i <= features@.len(),
            out@ == head + le_words(flattened(features@.take(i as int))),
        decreases features@.len() - i,
    {
        push_words(&mut out, &features[i]);
        proof {
            let t = features@.take(i + 1);
            assert(t.drop_last() =~= features@.take(i as int));
            assert(t.last() == features@[i as int]);
            lemma_le_words_add(flattened(features@.take(i as int)), features@[i as int]@);
            assert(out@ =~= head + le_words(flattened(t)));
        }
        i = i + 1;
    }
    assert(features@.take(i as int) =~= features@);
    assert(out@ =~= feat_bytes(
        block_id,
        n_points,
        n_features,
        n_halo,
        origin_x,
        origin_y,
        flattened(features@),
    ));
    out
}

// ── Reading ─────────────────────────────────────────────────────────────────

/// Four bytes as a list of decimal numbers in brackets.
pub open spec fn byte_list(b: Seq<u8>) -> Seq<char> {
    "["@ + decimal(b[0] as nat) + ", "@ + decimal(b[1] as nat) + ", "@ + decimal(b[2] as nat) + ", "@
        + decimal(b[3] as nat) + "]"@
}

pub open spec fn magic_message(path: Seq<char>, b: Seq<u8>) -> Seq<char> {
    path + ": bad magic "@ + byte_list(b) + " (expected [87, 66, 70, 84])"@
}

pub open spec fn version_message(path: Seq<char>, version: u8) -> Seq<char> {
    path + ": unsupported .feat version "@ + decimal(version as nat) + " (supported: 1, 2)"@
}

pub open spec fn width_message(path: Seq<char>, n_features: nat) -> Seq<char> {
    path + ": n_features="@ + decimal(n_features)
        + " does not match expected fixed-width feature count N_FEATURES=17"@
}

pub open spec fn halo_message(path: Seq<char>, n_halo: nat, n_points: nat) -> Seq<char> {
    path + ": n_halo="@ + decimal(n_halo) + " must be less than n_points="@ + decimal(n_points)
}

/// The message of a read past the end of the file.
pub open spec fn eof_text() -> Seq<char> {
    "I/O error: failed to fill whole buffer"@
}

/// The header of the file `b`, or the message on what is wrong with it: the
/// magic, the version, a file that ends inside the header, the number of
/// features, the number of halo rows, in this order.
pub open spec fn parsed_header(path: Seq<char>, b: Seq<u8>) -> Result<FeatHeader, Seq<char>> {
    if b.len() < 4 {
        Err(pipeline_text(path + ": header read error: failed to fill whole buffer"@))
    } else if b.take(4) != feat_magic() {
        Err(pipeline_text(magic_message(path, b)))
    } else if b.len() < 5 {
        Err(eof_text())
    } else if b[4] != FEAT_VERSION && b[4] != FEAT_VERSION_V1 {
        Err(pipeline_text(version_message(path, b[4])))
    } else if b.len() < 37 || (b[4] == FEAT_VERSION && b.len() < 41) {
        Err(eof_text())
    } else {
        let n_points = u32_at(b, 5);
        let n_features = u32_at(b, 9);
        let n_halo = if b[4] == FEAT_VERSION {
            u32_at(b, 37)
        } else {
            0
        };
        if n_features != N_FEATURES {
            Err(pipeline_text(width_message(path, n_features as nat)))
        } else if n_halo >= n_points {
            Err(pipeline_text(halo_message(path, n_halo as nat, n_points as nat)))
        } else {
            Ok(
                FeatHeader {
                    n_points: n_points as usize,
                    n_features: n_features as usize,
                    origin_x: Real64 { bits: u64_at(b, 21) },
                    origin_y: Real64 { bits: u64_at(b, 29) },
                    n_halo: n_halo as usize,
                    data_start: if b[4] == FEAT_VERSION {
                        41
                    } else {
                        37
                    },
                },
            )
        }
    }
}

fn bad_magic(path: &str, b: &Vec<u8>) -> (r: ClassifierError)
    requires
        b@.len() >= 4,
    ensures
        r.text() == pipeline_text(magic_message(path@, b@)),
{
    let mut m = concat2(path, ": bad magic ");
    let mut list = concat2("[", decimal_text(b[0] as u64).as_str());
    list.append(", ");
    list.append(decimal_text(b[1] as u64).as_str());
    list.append(", ");
    list.append(decimal_text(b[2] as u64).as_str());
    list.append(", ");
    list.append(decimal_text(b[3] as u64).as_str());
    list.append("]");
    m.append(list.as_str());
    m.append(" (expected [87, 66, 70, 84])");
    ClassifierError::Pipeline(m)
}

/// Parses and validates the header of a block file.
pub fn read_feat_header(path: &str, b: &Vec<u8>) -> (r: Result<FeatHeader, ClassifierError>)
    ensures
        match r {
            Ok(h) => parsed_header(path@, b@) == Ok::<FeatHeader, Seq<char>>(h),
            Err(e) => parsed_header(path@, b@) == Err::<FeatHeader, Seq<char>>(e.text()),
        },
{
    if b.len() < 4 {
        return Err(
            ClassifierError::Pipeline(
                concat2(path, ": header read error: failed to fill whole buffer"),
            ),
        );
    }
    if b[0] != 87 || b[1] != 66 || b[2] != 70 || b[3] != 84 {
        proof {
            let t = b@.take(4);
            let m = feat_magic();
            assert(t[0] == b@[0] && t[1] == b@[1] && t[2] == b@[2] && t[3] == b@[3]);
            assert(t != m);
        }
        return Err(bad_magic(path, b));
    }
    assert(b@.take(4) =~= feat_magic());
    if b.len() < 5 {
        return Err(ClassifierError::UnexpectedEof);
    }
    let version: u8 = b[4];
    if version != FEAT_VERSION && version != FEAT_VERSION_V1 {
        let mut m = concat2(path, ": unsupported .feat version ");
        m.append(decimal_text(version as u64).as_str());
        m.append(" (supported: 1, 2)");
        return Err(ClassifierError::Pipeline(m));
    }
    if b.len() < 37 || (version == FEAT_VERSION && b.len() < 41) {
        return Err(ClassifierError::UnexpectedEof);
    }
    let n_points: u32 = get_u32(b, 5);
    let n_features: u32 = get_u32(b, 9);
    let n_halo: u32 = if version == FEAT_VERSION {
        get_u32(b, 37)
    } else {
        0
    };
    if n_features as usize != N_FEATURES {
        let mut m = concat2(path, ": n_features=");
        m.append(decimal_text(n_features as u64).as_str());
        m.append(" does not match expected fixed-width feature count N_FEATURES=17");
        return Err(ClassifierError::Pipeline(m));
    }
    if n_halo >= n_points {
        let mut m = concat2(path, ": n_halo=");
        m.append(decimal_text(n_halo as u64).as_str());
        m.append(" must be less than n_points=");
        m.append(decimal_text(n_points as u64).as_str());
        return Err(ClassifierError::Pipeline(m));
    }
    Ok(
        FeatHeader {
            n_points: n_points as usize,
            n_features: n_features as usize,
            origin_x: Real64 { bits: get_u64(b, 21) },
            origin_y: Real64 { bits: get_u64(b, 29) },
            n_halo: n_halo as usize,
            data_start: if version == FEAT_VERSION {
                41
            } else {
                37
            },
        },
    )
}

pub open spec fn overflow_message(path: Seq<char>, n: nat, n_features: nat) -> Seq<char> {
    "'"@ + path + "': n_points × n_features overflows usize (n_points="@ + decimal(n)
        + ", n_features="@ + decimal(n_features) + ")"@
}

pub open spec fn cap_message(path: Seq<char>, bytes: nat, n: nat, n_features: nat) -> Seq<char> {
    "'"@ + path + "': data payload of "@ + decimal(bytes)
        + " bytes exceeds the 536870912-byte safety cap (n_points="@ + decimal(n) + ", n_features="@
        + decimal(n_features) + "); refusing to allocate"@
}

/// How many bytes of feature values a header claims, or the message where they
/// are too many to be read.
pub open spec fn claimed_payload(path: Seq<char>, h: FeatHeader) -> Result<int, Seq<char>> {
    let n_values = h.n_points as int * h.n_features as int;
    if n_values > usize::MAX {
        Err(pipeline_text(overflow_message(path, h.n_points as nat, h.n_features as nat)))
    } else if 4 * n_values > usize::MAX {
        Err(pipeline_text("'"@ + path + "': data payload size overflows usize"@))
    } else if 4 * n_values > MAX_FEAT_PAYLOAD_BYTES {
        Err(
            pipeline_text(
                cap_message(path, (4 * n_values) as nat, h.n_points as nat, h.n_features as nat),
            ),
        )
    } else {
        Ok(4 * n_values)
    }
}

/// How many bytes of feature values a header claims; an error where they are
/// more than the cap, so that no space is taken for them.
pub fn payload_bytes(path: &str, h: &FeatHeader) -> (r: Result<usize, ClassifierError>)
    ensures
        match r {
            Ok(n) => claimed_payload(path@, *h) == Ok::<int, Seq<char>>(n as int),
            Err(e) => claimed_payload(path@, *h) == Err::<int, Seq<char>>(e.text()),
        },
{
    let n_values: usize = match h.n_points.checked_mul(h.n_features) {
        Some(n) => n,
        None => {
            let mut m = concat2("'", path);
            m.append("': n_points × n_features overflows usize (n_points=");
            m.append(decimal_text(h.n_points as u64).as_str());
            m.append(", n_features=");
            m.append(decimal_text(h.n_features as u64).as_str());
            m.append(")");
            return Err(ClassifierError::Pipeline(m));
        },
    };
    let n_bytes: usize = match n_values.checked_mul(4) {
        Some(n) => n,
        None => {
            let mut m = concat2("'", path);
            m.append("': data payload size overflows usize");
            return Err(ClassifierError::Pipeline(m));
        },
    };
    if n_bytes > MAX_FEAT_PAYLOAD_BYTES {
        let mut m = concat2("'", path);
        m.append("': data payload of ");
        m.append(decimal_text(n_bytes as u64).as_str());
        m.append(" bytes exceeds the 536870912-byte safety cap (n_points=");
        m.append(decimal_text(h.n_points as u64).as_str());
        m.append(", n_features=");
        m.append(decimal_text(h.n_features as u64).as_str());
        m.append("); refusing to allocate");
        return Err(ClassifierError::Pipeline(m));
    }
    Ok(n_bytes)
}

/// The header and the feature values of the file `b`, or the message on what
/// is wrong with it. The size that the header claims is checked against the
/// cap before anything is read.
pub open spec fn parsed_feat(path: Seq<char>, b: Seq<u8>) -> Result<
    (FeatHeader, Seq<u32>),
    Seq<char>,
> {
    match parsed_header(path, b) {
        Err(m) => Err(m),
        Ok(h) => match claimed_payload(path, h) {
            Err(m) => Err(m),
            Ok(n_bytes) => if h.data_start + n_bytes > b.len() {
                Err(
                    pipeline_text(
                        "'"@ + path + "': data payload read error: failed to fill whole buffer"@,
                    ),
                )
            } else {
                Ok((h, words_at(b, h.data_start as int, (n_bytes / 4) as nat)))
            },
        },
    }
}

/// Reads a whole block file: its header and its feature values, row by row.
pub fn read_feat_file(path: &str, b: &Vec<u8>) -> (r: Result<
    (FeatHeader, Vec<u32>),
    ClassifierError,
>)
    ensures
        match r {
            Ok((h, values)) => parsed_feat(path@, b@) == Ok::<(FeatHeader, Seq<u32>), Seq<char>>(
                (h, values@),
            ),
            Err(e) => parsed_feat(path@, b@) == Err::<(FeatHeader, Seq<u32>), Seq<char>>(e.text()),
        },
{
    let h = match read_feat_header(path, b) {
        Ok(h) => h,
        Err(e) => {
            return Err(e);
        },
    };
    let n_bytes: usize = match payload_bytes(path, &h) {
        Ok(n) => n,
        Err(e) => {
            return Err(e);
        },
    };
    if b.len() < h.data_start || b.len() - h.data_start < n_bytes {
        let mut m = concat2("'", path);
        m.append("': data payload read error: failed to fill whole buffer");
        return Err(ClassifierError::Pipeline(m));
    }
    let values = get_words(b, h.data_start, n_bytes / 4);
    Ok((h, values))
}

/// What stands where in a version 2 file.
proof fn lemma_feat_fields(
    b: Seq<u8>,
    block_id: u64,
    n_points: u32,
    n_features: u32,
    n_halo: u32,
    origin_x: u64,
    origin_y: u64,
    values: Seq<u32>,
)
    requires
        stands_at(
            b,
            0,
            feat_magic() + (seq![FEAT_VERSION] + (le32(n_points) + (le32(n_features) + (le64(
                block_id,
            ) + (le64(origin_x) + (le64(origin_y) + (le32(n_halo) + le_words(values)))))))),
        ),
    ensures
        b.len() >= 41 + 4 * values.len(),
        b.take(4) == feat_magic(),
        b[4] == FEAT_VERSION,
        u32_at(b, 5) == n_points,
        u32_at(b, 9) == n_features,
        u64_at(b, 13) == block_id,
        u64_at(b, 21) == origin_x,
        u64_at(b, 29) == origin_y,
        u32_at(b, 37) == n_halo,
        words_at(b, 41, values.len()) == values,
{
    let t7 = le32(n_halo) + le_words(values);
    let t6 = le64(origin_y) + t7;
    let t5 = le64(origin_x) + t6;
    let t4 = le64(block_id) + t5;
    let t3 = le32(n_features) + t4;
    let t2 = le32(n_points) + t3;
    let t1 = seq![FEAT_VERSION] + t2;
    lemma_le_words_len(values);
    lemma_stands_split(b, 0, feat_magic(), t1);
    lemma_stands_split(b, 4, seq![FEAT_VERSION], t2);
    lemma_stands_split(b, 5, le32(n_points), t3);
    lemma_stands_split(b, 9, le32(n_features), t4);
    lemma_stands_split(b, 13, le64(block_id), t5);
    lemma_stands_split(b, 21, le64(origin_x), t6);
    lemma_stands_split(b, 29, le64(origin_y), t7);
    lemma_stands_split(b, 37, le32(n_halo), le_words(values));
    law_u32_round_trip(b, 5, n_points);
    law_u32_round_trip(b, 9, n_features);
    law_u64_round_trip(b, 13, block_id);
    law_u64_round_trip(b, 21, origin_x);
    law_u64_round_trip(b, 29, origin_y);
    law_u32_round_trip(b, 37, n_halo);
    law_words_round_trip(b, 41, values);
    assert(b.take(4) =~= b.subrange(0, 4));
    assert(b.subrange(4, 5)[0] == b[4]);
}

proof fn lemma_whole(b: Seq<u8>)
    ensures
        stands_at(b, 0, b),
{
    assert(b.subrange(0, b.len() as int) =~= b);
}

proof fn lemma_stored(n: usize, n_values: nat)
    requires
        n * 17 <= n_values,
        4 * n_values <= MAX_FEAT_PAYLOAD_BYTES,
    ensures
        stored(n) == n,
        stored(N_FEATURES) == N_FEATURES,
{
}

proof fn lemma_parses(path: Seq<char>, b: Seq<u8>, h: FeatHeader, values: Seq<u32>)
    requires
        b.len() >= 41 + 4 * values.len(),
        b.take(4) == feat_magic(),
        b[4] == FEAT_VERSION,
        u32_at(b, 5) == h.n_points,
        u32_at(b, 9) == N_FEATURES,
        u64_at(b, 21) == h.origin_x.bits,
        u64_at(b, 29) == h.origin_y.bits,
        u32_at(b, 37) == h.n_halo,
        words_at(b, 41, values.len()) == values,
        h.n_features == N_FEATURES,
        h.data_start == 41,
        h.n_halo < h.n_points,
        values.len() == h.n_points * N_FEATURES,
        4 * values.len() <= MAX_FEAT_PAYLOAD_BYTES,
    ensures
        parsed_feat(path, b) == Ok::<(FeatHeader, Seq<u32>), Seq<char>>((h, values)),
{
    assert(parsed_header(path, b) == Ok::<FeatHeader, Seq<char>>(h));
}

/// A block file reads back as it was written: for at least one core row and a
/// payload within the cap, the header fields and every value are unchanged.
pub proof fn law_feat_round_trip(
    path: Seq<char>,
    block_id: u64,
    n_points: usize,
    n_halo: usize,
    origin_x: Real64,
    origin_y: Real64,
    values: Seq<u32>,
)
    requires
        n_halo < n_points,
        values.len() == n_points * N_FEATURES,
        4 * values.len() <= MAX_FEAT_PAYLOAD_BYTES,
    ensures
        parsed_feat(
            path,
            feat_bytes(block_id, n_points, N_FEATURES, n_halo, origin_x, origin_y, values),
        ) == Ok::<(FeatHeader, Seq<u32>), Seq<char>>(
            (
                FeatHeader {
                    n_points,
                    n_features: N_FEATURES,
                    origin_x,
                    origin_y,
                    n_halo,
                    data_start: 41,
                },
                values,
            ),
        ),
{
    let b = feat_bytes(block_id, n_points, N_FEATURES, n_halo, origin_x, origin_y, values);
    lemma_whole(b);
    lemma_stored(n_points, values.len());
    lemma_stored(n_halo, values.len());
    lemma_feat_fields(
        b,
        block_id,
        stored(n_points),
        stored(N_FEATURES),
        stored(n_halo),
        origin_x.bits,
        origin_y.bits,
        values,
    );
    let h = FeatHeader {
        n_points,
        n_features: N_FEATURES,
        origin_x,
        origin_y,
        n_halo,
        data_start: 41,
    };
    lemma_parses(path, b, h, values);
}

/// A header is read exactly where the file starts with `WBFT` and version 1 or
/// 2, is long enough for that version, has the fixed number of features, and
/// fewer halo rows than rows. Each field comes from its place; files of version
/// 1 have no halo rows.
pub proof fn law_header_fields(path: Seq<char>, b: Seq<u8>)
    ensures
        parsed_header(path, b) is Ok <==> {
            &&& b.len() >= 37
            &&& b[0] == 87 && b[1] == 66 && b[2] == 70 && b[3] == 84
            &&& b[4] == 1 || (b[4] == 2 && b.len() >= 41)
            &&& u32_at(b, 9) == 17
            &&& u32_at(b, 5) > 0
            &&& b[4] == 2 ==> u32_at(b, 37) < u32_at(b, 5)
        },
        parsed_header(path, b) is Ok ==> {
            let h = parsed_header(path, b)->Ok_0;
            &&& h.n_points == u32_at(b, 5)
            &&& h.n_features == 17
            &&& h.origin_x.bits == u64_at(b, 21)
            &&& h.origin_y.bits == u64_at(b, 29)
            &&& b[4] == 2 ==> h.n_halo == u32_at(b, 37) && h.data_start == 41
            &&& b[4] == 1 ==> h.n_halo == 0 && h.data_start == 37
        },
{
    if b.len() >= 4 {
        let t = b.take(4);
        assert(t[0] == b[0] && t[1] == b[1] && t[2] == b[2] && t[3] == b[3]);
        if b[0] == 87 && b[1] == 66 && b[2] == 70 && b[3] == 84 {
            assert(t =~= feat_magic());
        }
    }
}

/// A written file starts with `WBFT` and version 2 and holds each number at its
/// place; the values fill the rest.
pub proof fn law_feat_layout(
    b: Seq<u8>,
    block_id: u64,
    n_points: usize,
    n_features: usize,
    n_halo: usize,
    origin_x: Real64,
    origin_y: Real64,
    values: Seq<u32>,
)
    requires
        b == feat_bytes(block_id, n_points, n_features, n_halo, origin_x, origin_y, values),
    ensures
        b.len() == 41 + 4 * values.len(),
        b[0] == 87 && b[1] == 66 && b[2] == 70 && b[3] == 84 && b[4] == 2,
        u32_at(b, 5) == n_points as int % 0x1_0000_0000,
        u32_at(b, 9) == n_features as int % 0x1_0000_0000,
        u64_at(b, 13) == block_id,
        u64_at(b, 21) == origin_x.bits,
        u64_at(b, 29) == origin_y.bits,
        u32_at(b, 37) == n_halo as int % 0x1_0000_0000,
        words_at(b, 41, values.len()) == values,
{
    lemma_whole(b);
    lemma_feat_fields(
        b,
        block_id,
        stored(n_points),
        stored(n_features),
        stored(n_halo),
        origin_x.bits,
        origin_y.bits,
        values,
    );
    lemma_feat_len(block_id, n_points, n_features, n_halo, origin_x, origin_y, values);
    lemma_magic_bytes(b);
}

proof fn lemma_magic_bytes(b: Seq<u8>)
    requires
        b.len() >= 4,
        b.take(4) == feat_magic(),
    ensures
        b[0] == 87,
        b[1] == 66,
        b[2] == 70,
        b[3] == 84,
{
    let t = b.take(4);
    assert(t[0] == b[0] && t[1] == b[1] && t[2] == b[2] && t[3] == b[3]);
}

proof fn lemma_feat_len(
    block_id: u64,
    n_points: usize,
    n_features: usize,
    n_halo: usize,
    origin_x: Real64,
    origin_y: Real64,
    values: Seq<u32>,
)
    ensures
        feat_bytes(block_id, n_points, n_features, n_halo, origin_x, origin_y, values).len() == 41
            + 4 * values.len(),
{
    lemma_le_words_len(values);
}

/// A payload is accepted exactly where its values, four bytes each, take no more
/// than half a gibibyte.
pub proof fn law_payload_is_capped(path: Seq<char>, h: FeatHeader)
    ensures
        claimed_payload(path, h) is Ok <==> 4 * (h.n_points * h.n_features) <= 0x2000_0000,
        claimed_payload(path, h) is Ok ==> claimed_payload(path, h)->Ok_0 == 4 * (h.n_points
            * h.n_features),
{
}

/// A file is read exactly where its header is, its payload is accepted and the
/// file holds all of it; its values are the words behind the header.
pub proof fn law_whole_files_are_read(path: Seq<char>, b: Seq<u8>)
    ensures
        parsed_feat(path, b) is Ok <==> {
            &&& parsed_header(path, b) is Ok
            &&& ({
                let h = parsed_header(path, b)->Ok_0;
                4 * (h.n_points * h.n_features) <= 0x2000_0000 && h.data_start + 4 * (h.n_points
                    * h.n_features) <= b.len()
            })
        },
        parsed_feat(path, b) is Ok ==> {
            let h = parsed_header(path, b)->Ok_0;
            let r = parsed_feat(path, b)->Ok_0;
            &&& r.0 == h
            &&& r.1.len() == h.n_points * h.n_features
            &&& forall|i: int|
                0 <= i < r.1.len() ==> #[trigger] r.1[i] == u32_at(b, h.data_start + 4 * i)
        },
{
    if parsed_header(path, b) is Ok {
        let h = parsed_header(path, b)->Ok_0;
        law_payload_is_capped(path, h);
        assert(0 <= h.n_points * h.n_features) by (nonlinear_arith)
            requires
                h.n_points >= 0,
                h.n_features >= 0,
        ;
    }
}

/// The values of a table stand row by row.
pub proof fn law_rows_follow_one_another(rows: Seq<Vec<u32>>, width: int, i: int, j: int)
    requires
        forall|k: int| 0 <= k < rows.len() ==> (#[trigger] rows[k])@.len() == width,
        0 <= i < rows.len(),
        0 <= j < width,
    ensures
        flattened(rows).len() == rows.len() * width,
        flattened(rows)[i * width + j] == rows[i]@[j],
    decreases rows.len(),
{
    let rest = rows.drop_last();
    let n = rows.len() as int;
    lemma_flattened_len(rows, width);
    assert forall|k: int| 0 <= k < rest.len() implies (#[trigger] rest[k])@.len() == width by {
        assert(rest[k] == rows[k]);
    }
    lemma_flattened_len(rest, width);
    assert(0 <= i * width && i * width + j < (i + 1) * width && (i + 1) * width <= n * width)
        by (nonlinear_arith)
        requires
            0 <= i < n,
            0 <= j < width,
    ;
    if i < n - 1 {
        law_rows_follow_one_another(rest, width, i, j);
        assert((i + 1) * width <= (n - 1) * width) by (nonlinear_arith)
            requires
                i < n - 1,
                0 < width,
        ;
        assert(flattened(rows)[i * width + j] == flattened(rest)[i * width + j]);
    } else {
        assert(flattened(rows)[i * width + j] == rows.last()@[j]);
    }
}

proof fn lemma_flattened_len(rows: Seq<Vec<u32>>, width: int)
    requires
        forall|k: int| 0 <= k < rows.len() ==> (#[trigger] rows[k])@.len() == width,
    ensures
        flattened(rows).len() == rows.len() * width,
    decreases rows.len(),
{
    if rows.len() > 0 {
        let rest = rows.drop_last();
        assert forall|k: int| 0 <= k < rest.len() implies (#[trigger] rest[k])@.len() == width by {
            assert(rest[k] == rows[k]);
        }
        lemma_flattened_len(rest, width);
        let n = rows.len() as int;
        assert(n * width == (n - 1) * width + width) by (nonlinear_arith);
    } else {
        assert(0 * width == 0) by (nonlinear_arith);
    }
}

} // verus!
